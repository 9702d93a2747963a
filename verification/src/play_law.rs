//! What a player can count on: how a session recovers, how commands are answered,
//! and what the view shows.
use vstd::prelude::*;
use crate::commands::{command_floor, losses, outcome, Book, CommandReceipt, Update};
use crate::contest::{
    attacks, capped, drawn, is_contest, places, presses, pressure, total_pressure,
    ContestedCellView,
};
use crate::coord::Axial;
use crate::deltas::LifecycleEvent;
use crate::dispatch::is_open;
use crate::flows::{flow_of, placed, rest_of_way, way};
use crate::host::{problem, Address};
use crate::impact::{flow_differs, retask_differs};
use crate::intents::PendingCommand;
use crate::interest::{chunk_at, spawn_focus, SpatialInterest};
use crate::ledger::{amount_at, counted, group_at, shifted};
use crate::map::TerrainKind;
use crate::order::sum;
use crate::outline::{
    boundary, category_of, exposed, lives_at, perimeter, sides, sides_of, tone_of, BrushCategory,
    BrushMarks, EdgeTone, PopulationBoundaryEdge,
};
use crate::projection::CellView;
use crate::session::{
    after_event, follows_to, is_effect, next_generation, retry_delay, LifecycleEffect, Seat,
};
use crate::tactical::{CombatFront, TransferOrder, TransitPacket, TransitRoute};

verus! {

/// The first retry waits half a second, each further one twice as long as the one
/// before, and none longer than eight seconds.
pub proof fn law_retries_slow_down(attempt: u32, earlier: u32, later: u32)
    requires
        attempt < u32::MAX,
        later == retry_delay((attempt + 1) as u32),
        earlier == retry_delay(attempt),
    ensures
        attempt == 0 ==> earlier == 1,
        1 <= earlier <= later <= 16,
        earlier < 16 ==> later == 2 * earlier,
        attempt >= 4 ==> earlier == 16,
{
}

/// What comes from an earlier connection, or from one that has failed already,
/// changes nothing and is not told.
pub proof fn law_stale_events_change_nothing(
    seat: Seat,
    event: LifecycleEvent,
    effect: LifecycleEffect,
)
    requires
        is_effect(seat, event, effect),
        !(event is CommandFailed),
        !(event is TokenWarning),
        crate::session::generation_of(event) != seat.generation || seat.failed == Some(
            seat.generation,
        ),
    ensures
        after_event(seat, event) == seat,
        effect is Ignored,
{
}

/// After a loss nobody is seated and nothing is ready, every command that waited
/// is closed, and the next try waits longer than the first.
pub proof fn law_a_loss_closes_everything(seat: Seat, event: LifecycleEvent, command: u128)
    requires
        event is ConnectionFailed || event is Disconnected,
        crate::session::generation_of(event) == seat.generation,
        seat.failed != Some(seat.generation),
        seat.attempt < u32::MAX,
    ensures
        ({
            let after = after_event(seat, event);
            &&& !after.bootstrap_ready
            &&& !after.tactical_ready
            &&& !after.book.ready
            &&& after.bound is None
            &&& after.subscribed is None
            &&& after.interest is None
            &&& after.failed == Some(seat.generation)
            &&& after.generation == seat.generation
            &&& after.attempt == seat.attempt + 1
            &&& 1 <= after.delay <= 16
            &&& !after.book.pending.contains_key(command)
            &&& seat.book.pending.contains_key(command) || seat.book.terminal.contains(command)
                <==> after.book.terminal.contains(command)
            &&& after.book.next == seat.book.next
            &&& after.book.processed == seat.book.processed
        }),
{
}

/// The lobby ends the waiting, a seat's subscription makes it ready, and a refusal
/// takes the seat but not the lobby away.
pub proof fn law_events_open_and_close_a_seat(seat: Seat, event: LifecycleEvent)
    requires
        crate::session::generation_of(event) == seat.generation,
        seat.failed != Some(seat.generation),
    ensures
        event is BootstrapSubscribed ==> {
            let after = after_event(seat, event);
            &&& after.bootstrap_ready
            &&& after.attempt == 0
            &&& after.delay == 0
            &&& after.tactical_ready == seat.tactical_ready
            &&& after.bound == seat.bound
            &&& after.book == seat.book
        },
        event is TacticalSubscribed ==> {
            let after = after_event(seat, event);
            &&& after.tactical_ready
            &&& after.bootstrap_ready == seat.bootstrap_ready
            &&& after.attempt == seat.attempt
            &&& after.book == seat.book
        },
        event is JoinFailed ==> {
            let after = after_event(seat, event);
            &&& after.bound is None
            &&& !after.tactical_ready
            &&& !after.book.ready
            &&& after.subscribed is None
            &&& after.interest is None
            &&& after.bootstrap_ready == seat.bootstrap_ready
            &&& after.book.pending == seat.book.pending
            &&& after.attempt == seat.attempt
        },
        event is Connected || event is TokenWarning ==> after_event(seat, event) == seat,
{
}

/// A command that got nowhere no longer waits and is closed for good; no other is
/// touched.
pub proof fn law_failed_commands_are_closed(
    seat: Seat,
    command_id: u64,
    reason: String,
    other: u128,
    effect: LifecycleEffect,
)
    requires
        is_effect(seat, (LifecycleEvent::CommandFailed { command_id, reason }), effect),
        other != command_id,
        forall|k: u128| #[trigger]
            seat.book.terminal.contains(k) ==> !seat.book.pending.contains_key(k),
    ensures
        ({
            let after = after_event(seat, LifecycleEvent::CommandFailed { command_id, reason });
            &&& !after.book.pending.contains_key(command_id as u128)
            &&& after.book.terminal.contains(command_id as u128)
            &&& after.book.pending.contains_key(other) == seat.book.pending.contains_key(other)
            &&& after.book.terminal.contains(other) == seat.book.terminal.contains(other)
            &&& effect is Told <==> seat.book.pending.contains_key(command_id as u128)
        }),
{
}

/// A new connection has a number of its own, which is never zero.
pub proof fn law_connections_are_told_apart(generation: u64)
    ensures
        next_generation(generation) != generation,
        next_generation(generation) != 0,
        generation < u64::MAX ==> next_generation(generation) > generation,
{
}

/// Commands can be given only with a lobby, a seat and numbers for them.
pub proof fn law_commands_wait_for_everything(seat: Seat)
    ensures
        !seat.bootstrap_ready || !seat.tactical_ready || !seat.book.ready ==> !is_open(seat),
        seat.bootstrap_ready && seat.tactical_ready && seat.book.ready ==> is_open(seat),
{
}

/// The interest moves only in matches of more than eight players, for a seated and
/// connected player, and only to another chunk; then it does move.
pub proof fn law_interest_moves_between_chunks(
    seat: Seat,
    connected: bool,
    player_count: u16,
    camera: SpatialInterest,
)
    ensures
        player_count <= 8 || !connected || seat.bound is None || !seat.tactical_ready
            ==> !follows_to(seat, connected, player_count, Some(camera)),
        !follows_to(seat, connected, player_count, None),
        seat.interest == Some(camera) ==> !follows_to(seat, connected, player_count, Some(camera)),
        player_count > 8 && connected && seat.bound is Some && seat.tactical_ready && (
        seat.interest is None || seat.interest.unwrap().focus_chunk_q != camera.focus_chunk_q
            || seat.interest.unwrap().focus_chunk_r != camera.focus_chunk_r) ==> follows_to(
            seat,
            connected,
            player_count,
            Some(camera),
        ),
{
}

/// The chunk of an offset is the one that holds it.
pub proof fn law_chunks_hold_their_offsets(offset: int, chunk_size: u16)
    requires
        chunk_size > 0,
        0 <= offset <= i16::MAX,
    ensures
        chunk_at(offset, chunk_size) * chunk_size <= offset,
        offset < (chunk_at(offset, chunk_size) + 1) * chunk_size,
{
    let s = chunk_size as int;
    vstd::arithmetic::div_mod::lemma_fundamental_div_mod(offset, s);
    vstd::arithmetic::div_mod::lemma_mod_bound(offset, s);
    let q = offset / s;
    assert(0 <= q <= offset && q * s <= offset && offset < (q + 1) * s) by (nonlinear_arith)
        requires
            offset == s * q + offset % s,
            0 <= offset % s < s,
            s > 0,
            offset >= 0,
    ;
}

/// A player whose start is known looks at its chunk first, two chunks around.
pub proof fn law_players_look_at_their_start(spawn_cell: u32, map_width: u16, chunk_size: u16)
    requires
        map_width > 0,
        chunk_size > 0,
        map_width <= i16::MAX,
        spawn_cell as int / (map_width as int) <= i16::MAX,
    ensures
        ({
            let focus = spawn_focus(spawn_cell, Some((map_width, chunk_size)));
            let column = spawn_cell as int % (map_width as int);
            let row = spawn_cell as int / (map_width as int);
            &&& focus.focus_chunk_q * chunk_size <= column < (focus.focus_chunk_q + 1) * chunk_size
            &&& focus.focus_chunk_r * chunk_size <= row < (focus.focus_chunk_r + 1) * chunk_size
            &&& focus.radius == 2
        }),
{
    let w = map_width as int;
    vstd::arithmetic::div_mod::lemma_mod_bound(spawn_cell as int, w);
    vstd::arithmetic::div_mod::lemma_div_pos_is_pos(spawn_cell as int, w);
    law_chunks_hold_their_offsets(spawn_cell as int % w, chunk_size);
    law_chunks_hold_their_offsets(spawn_cell as int / w, chunk_size);
}

/// Receipts of other players change nothing. One's own closes its command, which
/// waits no longer, and later commands get later numbers; no other command is
/// touched. The player is told exactly when the command waited and the receipt is
/// new.
pub proof fn law_receipts_close_their_commands(
    book: Book,
    local_player: u32,
    receipt: CommandReceipt,
    other: u128,
)
    requires
        other != receipt.client_command_id,
    ensures
        ({
            let (after, told) = book.after_receipt(local_player, receipt);
            let key = receipt.client_command_id as u128;
            let own = receipt.player_id == local_player;
            let new = !book.processed.contains(receipt.receipt_key);
            &&& !own ==> after == book && told is None
            &&& told is Some <==> own && new && book.pending.contains_key(key)
            &&& own && new ==> !after.pending.contains_key(key) && after.terminal.contains(key)
                && after.processed.contains(receipt.receipt_key)
            &&& own && receipt.client_command_id < u64::MAX ==> after.next
                > receipt.client_command_id && after.next >= book.next && after.ready == book.ready
            &&& own && receipt.client_command_id == u64::MAX ==> !after.ready
            &&& after.pending.contains_key(other) == book.pending.contains_key(other)
            &&& after.terminal.contains(other) == book.terminal.contains(other)
        }),
{
}

/// A receipt says how a command went: accepted or rejected as it stands there, and
/// rejected where it names another command. A mobilization is answered with the
/// share that was asked for.
pub proof fn law_receipts_say_how_it_went(pending: PendingCommand, receipt: CommandReceipt)
    ensures
        ({
            let told = outcome(pending, receipt);
            let same = receipt.command_name@ == pending.receipt_text();
            &&& !same ==> told is Rejected
            &&& same && receipt.status is Rejected ==> told == (Update::Rejected {
                command_id: Some(receipt.client_command_id),
                reason: receipt.message@,
            })
            &&& same && receipt.status is Accepted && !(pending is Mobilization) ==> told
                is Accepted
            &&& same && receipt.status is Accepted && pending is Mobilization ==> told == (
            Update::MobilizationChanged {
                command_id: receipt.client_command_id,
                target_bps: pending->target_bps,
            })
            &&& told.answers() == Some(receipt.client_command_id)
        }),
{
}

/// Sessions that begin later number their commands higher, and in one millisecond
/// the nonce tells them apart.
pub proof fn law_later_sessions_number_higher(
    earlier: u128,
    later: u128,
    a: u64,
    b: u64,
)
    requires
        earlier <= later <= 0xfff_ffff_ffff,
    ensures
        earlier < later ==> command_floor(earlier, a) < command_floor(later, b),
        earlier == later && command_floor(earlier, a) == command_floor(later, b) ==> a % 0x10_0000
            == b % 0x10_0000,
        0 <= command_floor(later, b) <= u64::MAX,
{
}

proof fn lemma_losses(pending: Map<u128, PendingCommand>, keys: Seq<u128>, i: int)
    requires
        0 <= i < keys.len(),
        pending[keys[i]].holds_the_player(),
    ensures
        exists|j: int|
            0 <= j < losses(pending, keys).len() && (#[trigger] losses(
                pending,
                keys,
            )[j]).answers() == Some(keys[i] as u64) && losses(pending, keys)[j] is Rejected,
    decreases keys.len(),
{
    let rest = losses(pending, keys.drop_last());
    let all = losses(pending, keys);
    if i == keys.len() - 1 {
        assert(all[rest.len() as int].answers() == Some(keys[i] as u64));
    } else {
        lemma_losses(pending, keys.drop_last(), i);
        let j = choose|j: int|
            0 <= j < rest.len() && (#[trigger] rest[j]).answers() == Some(keys.drop_last()[i] as u64)
                && rest[j] is Rejected;
        assert(all[j] == rest[j]);
    }
}

/// After a loss every command is answered, as rejected, but for mobilizations.
pub proof fn law_losses_are_told(
    pending: Map<u128, PendingCommand>,
    keys: Seq<u128>,
    i: int,
)
    requires
        0 <= i < keys.len(),
        !(pending[keys[i]] is Mobilization),
    ensures
        exists|j: int|
            0 <= j < losses(pending, keys).len() && (#[trigger] losses(
                pending,
                keys,
            )[j]).answers() == Some(keys[i] as u64) && losses(pending, keys)[j] is Rejected,
{
    lemma_losses(pending, keys, i);
}

/// Those who press on a front are those queued and engaged less those lost.
pub proof fn law_pressure_is_who_is_left(front: CombatFront)
    requires
        front.queued_infantry + front.attacker_engaged <= u64::MAX,
    ensures
        front.attacker_casualties <= front.queued_infantry + front.attacker_engaged ==> pressure(
            front,
        ) + front.attacker_casualties == front.queued_infantry + front.attacker_engaged,
        front.attacker_casualties >= front.queued_infantry + front.attacker_engaged ==> pressure(
            front,
        ) == 0,
{
}

/// What each front adds to the pressure of a player on a cell.
pub open spec fn added(
    ids: Map<u128, Axial>,
    fronts: Seq<CombatFront>,
    target: Axial,
    player: u128,
) -> Seq<int> {
    Seq::new(
        fronts.len(),
        |i: int|
            if ids.contains_key(fronts[i].from_cell as u128) && ids.contains_key(
                fronts[i].to_cell as u128,
            ) && ids[fronts[i].to_cell as u128] == target && fronts[i].attacker_player_id
                == player {
                pressure(fronts[i]) as int
            } else {
                0
            },
    )
}

proof fn lemma_added(
    ids: Map<u128, Axial>,
    fronts: Seq<CombatFront>,
    target: Axial,
    player: u128,
)
    ensures
        total_pressure(ids, fronts, target, player) == capped(
            sum(added(ids, fronts, target, player)),
        ),
        sum(added(ids, fronts, target, player)) >= 0,
    decreases fronts.len(),
{
    let s = added(ids, fronts, target, player);
    if fronts.len() > 0 {
        lemma_added(ids, fronts.drop_last(), target, player);
        assert(s.drop_last() =~= added(ids, fronts.drop_last(), target, player));
    }
}

/// A contested cell is shown with the player whose fronts add up to most on it,
/// and with all who fight there; nobody presses harder, and of those who press as
/// hard the shown one has the lowest number. It is never shown as contested by
/// its own holder.
pub proof fn law_contests_show_the_strongest(
    ids: Map<u128, Axial>,
    cells: Map<Axial, CellView>,
    fronts: Seq<CombatFront>,
    target: Axial,
    contest: ContestedCellView,
    i: int,
)
    requires
        is_contest(ids, cells, fronts, target, contest),
        0 <= i < fronts.len(),
        ids.contains_key(fronts[i].from_cell as u128),
        ids.contains_key(fronts[i].to_cell as u128),
        ids[fronts[i].to_cell as u128] == target,
    ensures
        ({
            let other = fronts[i].attacker_player_id as u128;
            let mine = sum(added(ids, fronts, target, contest.attacker_player as u128));
            let theirs = sum(added(ids, fronts, target, other));
            &&& mine <= u64::MAX ==> contest.attacker_strength == mine
            &&& mine < u64::MAX ==> theirs <= mine
            &&& theirs == mine ==> contest.attacker_player <= other
            &&& cells[target].owner != Some(contest.attacker_player)
            &&& contest.total_strength >= contest.attacker_strength
            &&& contest.total_strength > 0
            &&& contest.attacker_strength + cells[target].infantry <= u64::MAX
                ==> contest.total_strength == contest.attacker_strength + cells[target].infantry
        }),
{
    let other = fronts[i].attacker_player_id as u128;
    assert(presses(ids, fronts[i], target, other));
    assert(attacks(ids, fronts, target, other));
    lemma_added(ids, fronts, target, contest.attacker_player as u128);
    lemma_added(ids, fronts, target, other);
}

/// A front is drawn from the player's own side: from the attacked cell for the one
/// who defends it, from the attacker's for all others, with the larger side's
/// strength.
pub proof fn law_fronts_are_drawn_from_ones_own_side(
    front: CombatFront,
    from: Axial,
    to: Axial,
    local_player: u32,
)
    ensures
        ({
            let shown = drawn(front, from, to, local_player);
            &&& front.attacker_player_id == local_player ==> shown.friendly == from
                && shown.hostile == to
            &&& front.defender_player_id == local_player && front.attacker_player_id
                != local_player ==> shown.friendly == to && shown.hostile == from
            &&& front.defender_player_id != local_player ==> shown.friendly == from
                && shown.hostile == to
            &&& shown.engaged >= front.attacker_engaged
            &&& shown.engaged >= front.defender_engaged
            &&& shown.engaged == front.attacker_engaged || shown.engaged == front.defender_engaged
            &&& shown.frontage == front.frontage
        }),
{
}

/// What the brush shows of a cell. Off the map there is nothing, and water and
/// blocked ground cannot be marked whatever lies there. Only own ground can be
/// selected, and marks show only while the brush draws what they are for.
pub proof fn law_the_brush_tells_cells_apart(
    cell: CellView,
    marks: BrushMarks,
    local_player: u32,
    drawing_shape: bool,
)
    ensures
        category_of(None, marks, local_player, drawing_shape) == BrushCategory::OffMap,
        ({
            let shown = category_of(Some(cell), marks, local_player, drawing_shape);
            let blocked = cell.terrain == TerrainKind::Water || cell.blocked;
            let own = cell.owner == Some(local_player);
            &&& shown != BrushCategory::OffMap
            &&& shown == BrushCategory::Blocked <==> blocked
            &&& shown == BrushCategory::Selectable ==> own && !blocked
            &&& shown == BrushCategory::Foreign ==> !own && !blocked
            &&& shown == BrushCategory::ShapeTarget <==> !blocked && drawing_shape
                && marks.shape_target
            &&& shown == BrushCategory::AlreadySelected <==> !blocked && !drawing_shape
                && marks.source
            &&& shown == BrushCategory::RetaskHandle <==> !blocked && !drawing_shape
                && marks.retask_handle && !marks.source
        }),
{
}

/// Edges towards oneself are friendly, towards others hostile, towards nobody
/// neutral.
pub proof fn law_edges_tell_friend_from_foe(local_player: u32, owner: u32)
    ensures
        tone_of(local_player, None) == EdgeTone::Neutral,
        tone_of(local_player, Some(local_player)) == EdgeTone::Friendly,
        owner != local_player ==> tone_of(local_player, Some(owner)) == EdgeTone::Hostile,
{
}

proof fn lemma_sides_are(cells: Map<Axial, CellView>, c: Axial, directions: int, d: int)
    requires
        0 <= directions <= 6,
    ensures
        (exists|k: int|
            0 <= k < sides(cells, c, directions).len() && (#[trigger] sides(
                cells,
                c,
                directions,
            )[k]).direction == d) <==> 0 <= d < directions && !lives_at(cells, c.step(d)),
        forall|k: int|
            0 <= k < sides(cells, c, directions).len() ==> (#[trigger] sides(
                cells,
                c,
                directions,
            )[k]).coordinate == c && sides(cells, c, directions)[k].elevation
                == cells[c].elevation && sides(cells, c, directions)[k].direction < directions,
    decreases directions,
{
    if directions > 0 {
        lemma_sides_are(cells, c, directions - 1, d);
        let rest = sides(cells, c, directions - 1);
        let all = sides(cells, c, directions);
        if !lives_at(cells, c.step(directions - 1)) {
            assert(all[rest.len() as int].direction == directions - 1);
            assert forall|k: int| 0 <= k < rest.len() implies all[k] == #[trigger] rest[k] by {}
            if exists|k: int| 0 <= k < rest.len() && (#[trigger] rest[k]).direction == d {
                let k = choose|k: int| 0 <= k < rest.len() && (#[trigger] rest[k]).direction == d;
                assert(all[k].direction == d);
            }
            if exists|k: int| 0 <= k < all.len() && (#[trigger] all[k]).direction == d {
                let k = choose|k: int| 0 <= k < all.len() && (#[trigger] all[k]).direction == d;
                if k < rest.len() {
                    assert(rest[k].direction == d);
                }
            }
        }
    }
}

/// The outline of a populated cell has a side in a direction exactly where nobody
/// lives beyond it: beyond lies no cell, water, or a cell without people.
pub proof fn law_outlines_enclose_the_people(cells: Map<Axial, CellView>, c: Axial, d: int)
    requires
        0 <= d < 6,
    ensures
        (exists|k: int|
            0 <= k < sides_of(cells, c).len() && (#[trigger] sides_of(cells, c)[k]).direction
                == d) <==> {
            &&& cells.contains_key(c)
            &&& cells[c].terrain != TerrainKind::Water
            &&& cells[c].civilians > 0
            &&& !cells.contains_key(c.step(d)) || cells[c.step(d)].terrain == TerrainKind::Water
                || cells[c.step(d)].civilians == 0
        },
        forall|k: int|
            0 <= k < sides_of(cells, c).len() ==> (#[trigger] sides_of(cells, c)[k]).coordinate
                == c && sides_of(cells, c)[k].elevation == cells[c].elevation,
{
    lemma_sides_are(cells, c, 6, d);
    let s = sides_of(cells, c);
    assert(lives_at(cells, c.step(d)) <==> cells.contains_key(c.step(d))
        && cells[c.step(d)].terrain != TerrainKind::Water && cells[c.step(d)].civilians > 0);
    if lives_at(cells, c) {
        assert(s == sides(cells, c, 6));
        if !lives_at(cells, c.step(d)) {
            let k = choose|k: int|
                0 <= k < sides(cells, c, 6).len() && (#[trigger] sides(cells, c, 6)[k]).direction
                    == d;
            assert(s[k].direction == d);
        }
        if exists|k: int| 0 <= k < s.len() && (#[trigger] s[k]).direction == d {
            let k = choose|k: int| 0 <= k < s.len() && (#[trigger] s[k]).direction == d;
            assert(sides(cells, c, 6)[k].direction == d);
        }
    } else {
        assert(s.len() == 0);
    }
}

proof fn lemma_exposed(selection: Set<Axial>, c: Axial, directions: int, d: u8)
    requires
        0 <= directions <= 6,
    ensures
        exposed(selection, c, directions).contains((c, d)) <==> d < directions
            && !selection.contains(c.step(d as int)),
    decreases directions,
{
    if directions > 0 {
        lemma_exposed(selection, c, directions - 1, d);
        let rest = exposed(selection, c, directions - 1);
        let all = exposed(selection, c, directions);
        if !selection.contains(c.step(directions - 1)) {
            if rest.contains((c, d)) {
                let k = choose|k: int| 0 <= k < rest.len() && rest[k] == (c, d);
                assert(all[k] == (c, d));
            }
            if d == directions - 1 {
                assert(all[rest.len() as int] == (c, d));
            }
            if all.contains((c, d)) {
                let k = choose|k: int| 0 <= k < all.len() && all[k] == (c, d);
                if k < rest.len() {
                    assert(rest[k] == (c, d));
                }
            }
        }
    }
}

/// A side of a selected place is exposed exactly where the place beyond it is not
/// selected.
pub proof fn law_selections_are_outlined(selection: Set<Axial>, c: Axial, d: u8)
    requires
        d < 6,
    ensures
        exposed(selection, c, 6).contains((c, d)) <==> !selection.contains(c.step(d as int)),
{
    lemma_exposed(selection, c, 6, d);
}

proof fn lemma_placed(ids: Map<u128, Axial>, cells: Seq<u32>)
    requires
        forall|i: int| 0 <= i < cells.len() ==> ids.contains_key(#[trigger] cells[i] as u128),
    ensures
        placed(ids, cells) == Seq::new(cells.len(), |i: int| ids[cells[i] as u128]),
    decreases cells.len(),
{
    if cells.len() > 0 {
        lemma_placed(ids, cells.drop_last());
        assert(placed(ids, cells) =~= Seq::new(cells.len(), |i: int| ids[cells[i] as u128]));
    } else {
        assert(placed(ids, cells) =~= Seq::new(cells.len(), |i: int| ids[cells[i] as u128]));
    }
}

/// A packet on a direct way between two known places is shown as a flow from where
/// it is to where it goes, with all its soldiers, if its order is known; it
/// attacks exactly where somebody else holds the destination.
pub proof fn law_direct_packets_flow_home(
    ids: Map<u128, Axial>,
    cells: Map<Axial, CellView>,
    packet: TransitPacket,
    routes: Map<u128, TransitRoute>,
    has_order: bool,
)
    requires
        packet.route_id == 0,
        packet.route_index == 0,
        packet.current_cell != packet.destination_cell,
        ids.contains_key(packet.current_cell as u128),
        ids.contains_key(packet.destination_cell as u128),
    ensures
        ({
            let shown = flow_of(ids, cells, packet, routes, has_order);
            let goal = ids[packet.destination_cell as u128];
            &&& shown is Some <==> has_order
            &&& shown matches Some(flow) ==> {
                &&& flow.route == seq![ids[packet.current_cell as u128], goal]
                &&& flow.strength == packet.infantry
                &&& flow.attacking <==> cells.contains_key(goal) && cells[goal].owner is Some
                    && cells[goal].owner != Some(packet.owner_player_id as u32)
            }
        }),
{
    let list = seq![packet.current_cell, packet.destination_cell];
    assert(rest_of_way(list, 0) =~= list);
    lemma_placed(ids, list);
    assert(placed(ids, list) =~= seq![
        ids[packet.current_cell as u128],
        ids[packet.destination_cell as u128],
    ]);
}

/// A packet on a known route whose places are all known flows along what is left
/// of it.
pub proof fn law_packets_flow_along_their_routes(
    ids: Map<u128, Axial>,
    cells: Map<Axial, CellView>,
    packet: TransitPacket,
    routes: Map<u128, TransitRoute>,
    i: int,
)
    requires
        packet.route_id != 0,
        routes.contains_key(packet.route_id as u128),
        packet.route_index + 2 <= routes[packet.route_id as u128].cells@.len(),
        forall|k: int|
            0 <= k < routes[packet.route_id as u128].cells@.len() ==> ids.contains_key(
                #[trigger] routes[packet.route_id as u128].cells@[k] as u128,
            ),
        0 <= i < routes[packet.route_id as u128].cells@.len() - packet.route_index,
    ensures
        ({
            let shown = flow_of(ids, cells, packet, routes, true);
            let list = routes[packet.route_id as u128].cells@;
            &&& shown is Some
            &&& shown.unwrap().route.len() == list.len() - packet.route_index
            &&& shown.unwrap().route[i] == ids[list[packet.route_index + i] as u128]
            &&& shown.unwrap().strength == packet.infantry
        }),
{
    let list = routes[packet.route_id as u128].cells@;
    let left = rest_of_way(list, packet.route_index);
    assert forall|k: int| 0 <= k < left.len() implies ids.contains_key(
        #[trigger] left[k] as u128,
    ) by {
        assert(left[k] == list[packet.route_index + k]);
    }
    lemma_placed(ids, left);
    assert(left[i] == list[packet.route_index + i]);
}

/// An order that stays as it is, is neither drawn nor offered anew; one that comes
/// or goes is both, and so is one whose status or kind changes. Only its offer
/// changes with its player or its command.
pub proof fn law_orders_are_redrawn_when_they_change(p: TransferOrder, n: TransferOrder)
    ensures
        !flow_differs(Some(p), Some(p)) && !retask_differs(Some(p), Some(p)),
        !flow_differs(None, None) && !retask_differs(None, None),
        flow_differs(None, Some(n)) && retask_differs(None, Some(n)),
        flow_differs(Some(p), None) && retask_differs(Some(p), None),
        flow_differs(Some(p), Some(n)) <==> p.status != n.status || p.kind != n.kind,
        flow_differs(Some(p), Some(n)) ==> retask_differs(Some(p), Some(n)),
        p.player_id != n.player_id || p.client_command_id != n.client_command_id
            ==> retask_differs(Some(p), Some(n)),
{
}

/// What is entered and taken out again leaves a ledger as it was; entries add up,
/// and what is used up is no entry.
pub proof fn law_ledgers_balance<K>(entries: Map<K, u64>, key: K, other: K, a: u64, b: u64)
    requires
        other != key,
        amount_at(entries, key) + a + b <= u64::MAX,
        entries.contains_key(key) ==> entries[key] > 0,
        a > 0,
    ensures
        shifted(shifted(entries, key, a, true), key, a, false) == entries,
        amount_at(shifted(entries, key, a, true), key) == amount_at(entries, key) + a,
        shifted(shifted(entries, key, a, true), key, b, true) == shifted(
            entries,
            key,
            (a + b) as u64,
            true,
        ),
        amount_at(shifted(entries, key, a, true), other) == amount_at(entries, other),
        amount_at(entries, key) <= a ==> !shifted(entries, key, a, false).contains_key(key),
        amount_at(entries, key) > a ==> amount_at(shifted(entries, key, a, false), key)
            == amount_at(entries, key) - a,
{
    assert(shifted(shifted(entries, key, a, true), key, a, false) =~= entries);
    assert(shifted(shifted(entries, key, a, true), key, b, true) =~= shifted(
        entries,
        key,
        (a + b) as u64,
        true,
    ));
}

/// What is counted once more and once less is counted as before.
pub proof fn law_counts_balance<K>(groups: Map<u128, Map<K, u32>>, group: u128, key: K)
    requires
        groups.contains_key(group) ==> groups[group].dom() !~= Set::<K>::empty(),
        group_at(groups, group).contains_key(key) ==> 0 < group_at(groups, group)[key] < u32::MAX,
    ensures
        counted(counted(groups, group, key, true), group, key, false) == groups,
{
    let once = counted(groups, group, key, true);
    let entries = group_at(groups, group);
    assert(once[group].contains_key(key));
    if entries.contains_key(key) {
        assert(once[group].insert(key, entries[key]) =~= entries);
    } else {
        assert(once[group].remove(key) =~= entries);
    }
    assert(counted(once, group, key, false) =~= groups);
}

/// The outline of some places is made of the sides of each of them.
pub proof fn law_outlines_hold_every_side(
    cells: Map<Axial, CellView>,
    places: Seq<Axial>,
    edge: PopulationBoundaryEdge,
)
    ensures
        boundary(cells, places).contains(edge) <==> exists|i: int|
            0 <= i < places.len() && sides_of(cells, #[trigger] places[i]).contains(edge),
    decreases places.len(),
{
    if places.len() > 0 {
        let rest = places.drop_last();
        law_outlines_hold_every_side(cells, rest, edge);
        let end = places.len() - 1;
        let a = boundary(cells, rest);
        let b = sides_of(cells, places.last());
        let all = a + b;
        assert(boundary(cells, places) == all);
        if a.contains(edge) {
            let k = choose|k: int| 0 <= k < a.len() && a[k] == edge;
            assert(all[k] == edge);
            let i = choose|i: int|
                0 <= i < rest.len() && sides_of(cells, #[trigger] rest[i]).contains(edge);
            assert(places[i] == rest[i]);
        }
        if b.contains(edge) {
            let k = choose|k: int| 0 <= k < b.len() && b[k] == edge;
            assert(all[a.len() + k] == edge);
            assert(places[end] == places.last());
        }
        if all.contains(edge) {
            let k = choose|k: int| 0 <= k < all.len() && all[k] == edge;
            if k < a.len() {
                assert(a[k] == edge);
            } else {
                assert(b[k - a.len()] == edge);
            }
        }
        if exists|i: int|
            0 <= i < places.len() && sides_of(cells, #[trigger] places[i]).contains(edge) {
            let i = choose|i: int|
                0 <= i < places.len() && sides_of(cells, #[trigger] places[i]).contains(edge);
            if i < rest.len() {
                assert(rest[i] == places[i]);
            }
        }
    }
}

/// The outline of a selection is made of the exposed sides of its places.
pub proof fn law_perimeters_hold_every_side(
    selection: Set<Axial>,
    places: Seq<Axial>,
    side: (Axial, u8),
)
    ensures
        perimeter(selection, places).contains(side) <==> exists|i: int|
            0 <= i < places.len() && selection.contains(#[trigger] places[i]) && exposed(
                selection,
                places[i],
                6,
            ).contains(side),
    decreases places.len(),
{
    if places.len() > 0 {
        let rest = places.drop_last();
        law_perimeters_hold_every_side(selection, rest, side);
        let end = places.len() - 1;
        assert(places[end] == places.last());
        let a = perimeter(selection, rest);
        let b = exposed(selection, places.last(), 6);
        let all = perimeter(selection, places);
        if a.contains(side) {
            let k = choose|k: int| 0 <= k < a.len() && a[k] == side;
            assert(all[k] == side);
            let i = choose|i: int|
                0 <= i < rest.len() && selection.contains(#[trigger] rest[i]) && exposed(
                    selection,
                    rest[i],
                    6,
                ).contains(side);
            assert(places[i] == rest[i]);
        }
        if selection.contains(places.last()) {
            assert(all == a + b);
            if b.contains(side) {
                let k = choose|k: int| 0 <= k < b.len() && b[k] == side;
                assert(all[a.len() + k] == side);
            }
        }
        if all.contains(side) {
            let k = choose|k: int| 0 <= k < all.len() && all[k] == side;
            if k < a.len() {
                assert(a[k] == side);
            } else {
                assert(b[k - a.len()] == side);
            }
        }
        if exists|i: int|
            0 <= i < places.len() && selection.contains(#[trigger] places[i]) && exposed(
                selection,
                places[i],
                6,
            ).contains(side) {
            let i = choose|i: int|
                0 <= i < places.len() && selection.contains(#[trigger] places[i]) && exposed(
                    selection,
                    places[i],
                    6,
                ).contains(side);
            if i < rest.len() {
                assert(rest[i] == places[i]);
            }
        }
    }
}

/// An address can be connected to exactly where it could be read, has an
/// authority, and its scheme is one of the web.
pub proof fn law_only_web_addresses_are_connected_to(
    scheme: Option<Seq<char>>,
    has_authority: bool,
    reason: Seq<char>,
)
    ensures
        problem(Address::Fault { reason }) == Some(reason),
        problem(Address::Parts { scheme, has_authority }) is None <==> has_authority && (scheme
            == Some("http"@) || scheme == Some("https"@) || scheme == Some("ws"@) || scheme == Some(
            "wss"@,
        )),
{
}

} // verus!
