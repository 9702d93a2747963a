//! The view of a match, brought up to date with what the server reports.
use vstd::prelude::*;
use crate::axials::AxialMap;
use crate::commands::{said, Book, CommandReceipt, ServerUpdate, Update};
use crate::contest::{fronts_to_overlays, is_contest, seen_fronts, ActiveFront, ContestedCellView};
use crate::coord::Axial;
use crate::deltas::{
    CellState, CELLS_DIRTY, FRONTS_DIRTY, MATCH_DIRTY, MOBILIZATION_DIRTY, ORDERS_DIRTY, PLAYERS_DIRTY,
    RECEIPTS_DIRTY, TERRAIN_DIRTY,
};
use crate::flows::{
    law_untouched_flows_stay, replace_authoritative_flows, shows, update_authoritative_flows,
    ActiveFlow,
};
use crate::impact::{follows, redrawn, reoffered, serves, ProjectionImpact};
use crate::interest::{
    spatial_text, spawn_focus, tactical_texts, texts, HIGH_SCALE_PLAYER_THRESHOLD,
};
use crate::projection::{
    by_number, by_place, cells_after, cells_without, chunks_after, chunks_over, fading, laid_out,
    local_seat, read_players, seats, some_conquest, some_owner_fades, some_plan_fades, some_replan,
    untakeable, CellBoard, CellChanges, CellTerrain, CellView, ConnectionState, Ground, Identity,
    MapViewMode, PlayerSlot,
};
use crate::retask::{scene_of, Offers, RetaskBoard, RetaskChange};
use crate::retask_law::{touched_destinations, touched_packets, touched_sources};
use crate::session::{Seat, Session};
use crate::table::{ordered_keys, rows_in_order, KeySet, Table};
use crate::tactical::{CombatFront, TacticalCache, TacticalChanges, TransferSource};

verus! {

/// Which tables have to be read in full.
#[derive(Clone, Copy, Debug, Eq, PartialEq, Structural)]
pub struct Wanted {
    pub terrain: bool,
    /// All cells; else only those that were reported since.
    pub all_cells: bool,
    pub changed_cells: bool,
    pub match_rows: bool,
    pub players: bool,
    pub mobilization: bool,
    pub receipts: bool,
    pub tactical: bool,
}

/// Whether one of some parts is stale.
pub open spec fn is_stale(dirty: u32, parts: u32) -> bool {
    dirty & parts != 0
}

fn has_any(dirty: u32, parts: u32) -> (any: bool)
    ensures
        any == is_stale(dirty, parts),
{
    dirty & parts != 0
}

/// What to read for the parts that are stale. New terrain is the only reason to
/// read the tactical tables in full.
pub fn tables_to_read(dirty: u32) -> (wanted: Wanted)
    ensures
        wanted == (Wanted {
            terrain: is_stale(dirty, TERRAIN_DIRTY),
            all_cells: is_stale(dirty, TERRAIN_DIRTY),
            changed_cells: !is_stale(dirty, TERRAIN_DIRTY) && is_stale(dirty, CELLS_DIRTY),
            match_rows: is_stale(dirty, MATCH_DIRTY),
            players: is_stale(dirty, PLAYERS_DIRTY),
            mobilization: is_stale(dirty, MOBILIZATION_DIRTY),
            receipts: is_stale(dirty, RECEIPTS_DIRTY | PLAYERS_DIRTY),
            tactical: is_stale(dirty, TERRAIN_DIRTY),
        }),
{
    let terrain: bool = has_any(dirty, TERRAIN_DIRTY);
    Wanted {
        terrain,
        all_cells: terrain,
        changed_cells: !terrain && has_any(dirty, CELLS_DIRTY),
        match_rows: has_any(dirty, MATCH_DIRTY),
        players: has_any(dirty, PLAYERS_DIRTY),
        mobilization: has_any(dirty, MOBILIZATION_DIRTY),
        receipts: has_any(dirty, RECEIPTS_DIRTY | PLAYERS_DIRTY),
        tactical: terrain,
    }
}

#[derive(Clone, Copy, Debug, Eq, PartialEq, Structural)]
pub enum RemotePhase {
    Lobby,
    Running,
    Completed,
}

#[derive(Clone, Copy, Debug, Eq, PartialEq, Structural)]
pub enum MatchPhase {
    Lobby,
    Running,
    Victory { player: u32 },
}

#[derive(Clone, Copy, Debug, Eq, PartialEq, Structural)]
pub struct MatchConfig {
    pub player_count: u16,
    pub conquest_threshold_bps: u32,
    pub max_elevation_step: u8,
    pub map_width: u16,
    pub chunk_size: u16,
}

#[derive(Clone, Copy, Debug, Eq, PartialEq, Structural)]
pub struct MatchState {
    pub phase: RemotePhase,
    pub winner_player_id: u16,
    pub logical_step: u64,
    pub capturable_cells: u32,
    pub required_control: u32,
    pub claimed_players: u16,
}

#[derive(Clone, Copy, Debug, Eq, PartialEq, Structural)]
pub struct PlayerState {
    pub player_id: u16,
    pub controlled_cells: u32,
    pub spawn_cell_id: u32,
}

#[derive(Clone, Copy, Debug, Eq, PartialEq, Structural)]
pub struct MobilizationPolicy {
    pub player_id: u16,
    pub target_bps: u32,
}

/// What was read of the match as a whole.
#[derive(Debug)]
pub struct FactRows {
    /// Who this client is, once the server has said so.
    pub identity: Option<Identity>,
    pub config: Option<MatchConfig>,
    pub match_state: Option<MatchState>,
    pub player_states: Option<Vec<PlayerState>>,
    pub players: Option<Vec<PlayerSlot>>,
    pub mobilization: Option<Vec<MobilizationPolicy>>,
    pub receipts: Option<Vec<CommandReceipt>>,
}

/// What was read of the tables that are stale.
#[derive(Debug)]
pub struct AuthoritySnapshot {
    pub terrain: Option<Vec<CellTerrain>>,
    pub cells: Option<Vec<CellState>>,
    pub absences: KeySet,
    pub facts: FactRows,
    pub tactical: Option<TacticalCache>,
}

/// What is known of the match as a whole.
#[derive(Debug)]
pub struct MatchFacts {
    pub local_player: u32,
    pub player_count: u16,
    pub connection: Vec<ConnectionState>,
    pub conquest_threshold_bps: u32,
    pub max_elevation_step: u16,
    pub phase: MatchPhase,
    pub logical_step: u64,
    pub capturable_cells: u32,
    pub required_control: u32,
    pub claimed_players: u16,
    pub authoritative_control: Option<Table<u32>>,
    pub mobilization_target_bps: u32,
    pub active_orders: usize,
    pub queued_infantry: u128,
}

/// The states of the seats of a match: those that there were, and seats that are
/// still to come.
pub open spec fn resized(states: Seq<ConnectionState>, player_count: u16) -> Seq<ConnectionState> {
    Seq::new(
        player_count as nat,
        |i: int|
            if i < states.len() {
                states[i]
            } else {
                ConnectionState::Syncing
            },
    )
}

pub fn resize(states: &Vec<ConnectionState>, player_count: u16) -> (sized: Vec<ConnectionState>)
    ensures
        sized@ == resized(states@, player_count),
{
    let mut sized: Vec<ConnectionState> = Vec::new();
    let mut i: usize = 0;
    while i < player_count as usize
        invariant
            i <= player_count,
            sized@ =~= resized(states@, i as u16),
        decreases player_count - i,
    {
        sized.push(
            if i < states.len() {
                states[i]
            } else {
                ConnectionState::Syncing
            },
        );
        i += 1;
    }
    sized
}

/// What is known of the match as a whole, as values.
#[verifier::ext_equal]
pub ghost struct Facts {
    pub local_player: u32,
    pub player_count: u16,
    pub connection: Seq<ConnectionState>,
    pub conquest_threshold_bps: u32,
    pub max_elevation_step: u16,
    pub phase: MatchPhase,
    pub logical_step: u64,
    pub capturable_cells: u32,
    pub required_control: u32,
    pub claimed_players: u16,
    pub control: Option<Map<u128, u32>>,
    pub mobilization_target_bps: u32,
    pub active_orders: int,
    pub queued_infantry: int,
}

impl View for MatchFacts {
    type V = Facts;

    open spec fn view(&self) -> Facts {
        Facts {
            local_player: self.local_player,
            player_count: self.player_count,
            connection: self.connection@,
            conquest_threshold_bps: self.conquest_threshold_bps,
            max_elevation_step: self.max_elevation_step,
            phase: self.phase,
            logical_step: self.logical_step,
            capturable_cells: self.capturable_cells,
            required_control: self.required_control,
            claimed_players: self.claimed_players,
            control: match self.authoritative_control {
                Some(table) => Some(table@),
                None => None,
            },
            mobilization_target_bps: self.mobilization_target_bps,
            active_orders: self.active_orders as int,
            queued_infantry: self.queued_infantry as int,
        }
    }
}

impl Facts {
    /// Once the size of the match has been read.
    pub open spec fn with_config(self, config: Option<MatchConfig>) -> Facts {
        match config {
            Some(c) => Facts {
                player_count: c.player_count,
                connection: resized(self.connection, c.player_count),
                conquest_threshold_bps: c.conquest_threshold_bps,
                max_elevation_step: c.max_elevation_step as u16,
                ..self
            },
            None => self,
        }
    }

    /// Once the state of the match has been read.
    pub open spec fn with_state(self, state: Option<MatchState>) -> Facts {
        match state {
            Some(m) => Facts {
                phase: phase_of(m),
                logical_step: m.logical_step,
                capturable_cells: m.capturable_cells,
                required_control: m.required_control,
                claimed_players: m.claimed_players,
                ..self
            },
            None => self,
        }
    }

    /// Once it has been read who sits where.
    pub open spec fn with_players(
        self,
        players: Option<Vec<PlayerSlot>>,
        identity: Option<Identity>,
    ) -> Facts {
        match players {
            Some(slots) => Facts {
                connection: seats(self.player_count, slots@),
                local_player: player_now(
                    self.local_player,
                    local_seat(self.player_count, slots@, identity),
                ),
                ..self
            },
            None => self,
        }
    }

    /// Once it has been read who controls how much, and what is mobilized.
    pub open spec fn with_policies(
        self,
        states: Option<Vec<PlayerState>>,
        policies: Option<Vec<MobilizationPolicy>>,
    ) -> Facts {
        Facts {
            control: match states {
                Some(rows) => Some(control_of(rows@)),
                None => self.control,
            },
            mobilization_target_bps: match policies {
                Some(rows) => match policy_of(rows@, self.local_player) {
                    Some(target) => target,
                    None => self.mobilization_target_bps,
                },
                None => self.mobilization_target_bps,
            },
            ..self
        }
    }

    /// Once everything that was read has been taken in.
    pub open spec fn after(self, rows: FactRows) -> Facts {
        self.with_config(rows.config).with_state(rows.match_state).with_players(
            rows.players,
            rows.identity,
        ).with_policies(rows.player_states, rows.mobilization)
    }
}

/// The phase that a row tells of.
pub open spec fn phase_of(state: MatchState) -> MatchPhase {
    match state.phase {
        RemotePhase::Lobby => MatchPhase::Lobby,
        RemotePhase::Running => MatchPhase::Running,
        RemotePhase::Completed => MatchPhase::Victory { player: state.winner_player_id as u32 },
    }
}

/// How many cells each player controls; the last row of a player counts.
pub open spec fn control_of(rows: Seq<PlayerState>) -> Map<u128, u32>
    decreases rows.len(),
{
    if rows.len() == 0 {
        Map::empty()
    } else {
        control_of(rows.drop_last()).insert(
            rows.last().player_id as u128,
            rows.last().controlled_cells,
        )
    }
}

/// The first policy of a player.
pub open spec fn policy_of(rows: Seq<MobilizationPolicy>, player: u32) -> Option<u32>
    decreases rows.len(),
{
    if rows.len() == 0 {
        None
    } else if rows[0].player_id as u32 == player {
        Some(rows[0].target_bps)
    } else {
        policy_of(rows.drop_first(), player)
    }
}

/// The spawn cell of a player; zero where it is unknown.
pub open spec fn spawn_of(rows: Seq<PlayerState>, player: u16) -> u32
    decreases rows.len(),
{
    if rows.len() == 0 {
        0
    } else if rows[0].player_id == player {
        rows[0].spawn_cell_id
    } else {
        spawn_of(rows.drop_first(), player)
    }
}

pub fn spawn_cell(rows: &Vec<PlayerState>, player: u16) -> (cell: u32)
    ensures
        cell == spawn_of(rows@, player),
{
    let mut i: usize = 0;
    assert(rows@.skip(0) =~= rows@);
    while i < rows.len()
        invariant
            i <= rows@.len(),
            spawn_of(rows@, player) == spawn_of(rows@.skip(i as int), player),
        decreases rows.len() - i,
    {
        assert(rows@.skip(i as int).drop_first() =~= rows@.skip(i + 1));
        if rows[i].player_id == player {
            return rows[i].spawn_cell_id;
        }
        i += 1;
    }
    0
}

/// How many soldiers wait at the sources of orders.
pub open spec fn queued_at(sources: Map<u128, TransferSource>, keys: Seq<u128>) -> int
    decreases keys.len(),
{
    if keys.len() == 0 {
        0
    } else {
        queued_at(sources, keys.drop_last()) + sources[keys.last()].queued_infantry
    }
}

pub fn queued_infantry(sources: &Table<TransferSource>) -> (soldiers: u128)
    ensures
        soldiers == queued_at(sources@, ordered_keys(sources@.dom())),
{
    let keys = sources.keys();
    let count: usize = keys.len();
    let mut soldiers: u128 = 0;
    let mut i: usize = 0;
    assert(keys@.take(0) =~= Seq::<u128>::empty());
    while i < keys.len()
        invariant
            i <= keys@.len(),
            keys@.len() == count,
            keys@.to_set() == sources@.dom(),
            soldiers == queued_at(sources@, keys@.take(i as int)),
            soldiers <= i * u64::MAX,
        decreases keys.len() - i,
    {
        assert(keys@.take(i + 1).drop_last() =~= keys@.take(i as int));
        assert(keys@.to_set().contains(keys@[i as int]));
        let more: u64 = match sources.get(keys[i]) {
            Some(source) => source.queued_infantry,
            None => vstd::pervasive::unreached(),
        };
        proof {
            let n = i as int;
            assert(n * u64::MAX + u64::MAX == (n + 1) * u64::MAX) by (nonlinear_arith);
            assert((n + 1) * u64::MAX <= u128::MAX) by (nonlinear_arith)
                requires
                    n + 1 <= u64::MAX,
            ;
        }
        soldiers = soldiers + more as u128;
        i += 1;
    }
    assert(keys@.take(i as int) =~= keys@);
    soldiers
}

/// What the client knows.
#[derive(Debug)]
pub struct Client {
    pub session: Session,
    pub tactical: TacticalCache,
    pub board: CellBoard,
    pub facts: MatchFacts,
    pub flows: Table<ActiveFlow>,
    pub active_fronts: Vec<ActiveFront>,
    pub contested_cells: AxialMap<ContestedCellView>,
    pub retask: RetaskBoard,
}

/// What the match as a whole asks for.
#[derive(Debug)]
pub struct FactReport {
    /// Subscriptions to open: queries of a seat, and queries around its spawn.
    pub subscriptions: Vec<(Vec<String>, Option<Vec<String>>)>,
    pub updates: Vec<ServerUpdate>,
    /// A seat that was taken just now.
    pub newly_bound: Option<u16>,
}

/// What the rest of the program has to do about an update.
#[derive(Debug)]
pub struct SyncReport {
    pub facts: FactReport,
    /// What the cells ask for; nothing where they are laid out anew.
    pub cells: Option<CellChanges>,
    pub player_changed: bool,
    pub retask: RetaskChange,
    /// The running orders before they were worked out anew.
    pub previous: Option<RetaskBoard>,
}

impl Client {
    /// Whether the indexes tell of the rows, and command numbers are sound.
    pub open spec fn is_sound(&self) -> bool {
        self.tactical.is_sound() && self.session@.book.is_numbered()
    }

    /// Takes changed rows in, and says what they touch. Rows that were read in
    /// full come first: what came in since is applied to them too.
    fn take_in_rows(&mut self, changes: TacticalChanges, captured: Option<TacticalCache>) -> (
        impact: ProjectionImpact)
        requires
            old(self).is_sound(),
            captured matches Some(cache) ==> cache.is_sound(),
        ensures
            final(self).tactical.is_sound(),
            final(self).tactical.has_rows_after(
                match captured {
                    Some(cache) => cache,
                    None => old(self).tactical,
                },
                changes,
            ),
            final(self).session == old(self).session,
            final(self).board == old(self).board,
            final(self).facts == old(self).facts,
            final(self).flows == old(self).flows,
            final(self).active_fronts == old(self).active_fronts,
            final(self).contested_cells == old(self).contested_cells,
            final(self).retask.active_order_ids == old(self).retask.active_order_ids,
            final(self).retask.handle_orders == old(self).retask.handle_orders,
            final(self).retask.revision == old(self).retask.revision,
            captured is Some ==> final(self).retask == old(self).retask,
            captured is None ==> is_touched(impact, old(self).tactical, changes, final(
                self
            ).tactical),
            captured is None ==> final(self).retask.offers() == old(self).retask.offers().with_rows(
                scene_of(
                    old(self).board.id_to_coordinate@,
                    old(self).tactical,
                    old(self).facts.local_player,
                ),
                old(self).tactical,
                touched_packets(old(self).tactical, changes),
                touched_sources(old(self).tactical, changes),
                touched_destinations(old(self).tactical, changes),
                false,
            ),
    {
        let ghost before = self.tactical;
        let full: bool = captured.is_some();
        let mut impact = ProjectionImpact::before(&self.tactical, &changes);
        proof {
            assert(impact.retask_packet_ids@ =~= touched_packets(before, changes));
            assert(impact.retask_source_keys@ =~= touched_sources(before, changes));
            assert(impact.retask_destination_keys@ =~= touched_destinations(before, changes));
        }
        if !full {
            self.retask.apply_retask_row_changes(
                &self.board.id_to_coordinate,
                &self.tactical,
                self.facts.local_player,
                &impact,
                false,
            );
        }
        if let Some(cache) = captured {
            self.tactical = cache;
        }
        self.tactical.apply(changes);
        impact.after(&self.tactical);
        proof {
            if !full {
                assert forall|k: u128| #[trigger]
                    impact.retask_packet_ids@.contains(k) <==> touched_packets(
                        before,
                        changes,
                    ).contains(k) by {
                    crate::retask_law::law_touched_rows_are_known_before(
                        before,
                        changes,
                        self.tactical,
                        k,
                    );
                }
                assert forall|k: u128| #[trigger]
                    impact.retask_source_keys@.contains(k) <==> touched_sources(
                        before,
                        changes,
                    ).contains(k) by {
                    crate::retask_law::law_touched_rows_are_known_before(
                        before,
                        changes,
                        self.tactical,
                        k,
                    );
                }
                assert forall|k: u128| #[trigger]
                    impact.retask_destination_keys@.contains(k) <==> touched_destinations(
                        before,
                        changes,
                    ).contains(k) by {
                    crate::retask_law::law_touched_rows_are_known_before(
                        before,
                        changes,
                        self.tactical,
                        k,
                    );
                }
                assert(impact.retask_packet_ids@ =~= touched_packets(before, changes));
                assert(impact.retask_source_keys@ =~= touched_sources(before, changes));
                assert(impact.retask_destination_keys@ =~= touched_destinations(before, changes));
            }
        }
        impact
    }
}

/// Whether an impact names what changes touch.
pub open spec fn is_touched(
    impact: ProjectionImpact,
    before: TacticalCache,
    changes: TacticalChanges,
    after: TacticalCache,
) -> bool {
    &&& impact.retask_packet_ids@ == touched_packets(before, changes)
    &&& impact.retask_source_keys@ == touched_sources(before, changes)
    &&& impact.retask_destination_keys@ == touched_destinations(before, changes)
    &&& impact.structural_order_ids@ == reoffered(before.orders@, changes.orders@)
    &&& impact.fronts_changed == !(changes.fronts@.dom() =~= Set::<u128>::empty())
    &&& forall|k: u128| #[trigger]
        impact.flow_packet_ids@.contains(k) <==> touched_flows(before, changes, after).contains(k)
}

/// Whether changes touch what running orders can be told anew.
pub open spec fn touches_offers(before: TacticalCache, changes: TacticalChanges) -> bool {
    let none = Set::<u128>::empty();
    !(changes.fronts@.dom() =~= none && reoffered(before.orders@, changes.orders@) =~= none
        && touched_packets(before, changes) =~= none && touched_sources(before, changes) =~= none
        && touched_destinations(before, changes) =~= none)
}

/// The packets whose movement is drawn again.
pub open spec fn touched_flows(
    before: TacticalCache,
    changes: TacticalChanges,
    after: TacticalCache,
) -> Set<u128> {
    let orders = reoffered(before.orders@, changes.orders@);
    Set::new(
        |k: u128|
            changes.packets@.contains_key(k) || follows(
                before.packets@,
                changes.routes@.dom(),
                k,
            ) || serves(before.packets@, redrawn(before.orders@, changes.orders@), k) || follows(
                after.packets@,
                changes.routes@.dom(),
                k,
            ) || serves(after.packets@, orders, k),
    )
}

/// A seat with the subscriptions that it needs.
pub open spec fn subscribed(
    seat: Seat,
    connected: bool,
    player_count: u16,
    player: u16,
    spawn: u32,
    layout: Option<(u16, u16)>,
) -> Seat {
    if seat.subscribed == Some(player) || !connected {
        seat
    } else {
        Seat {
            subscribed: Some(player),
            tactical_ready: false,
            interest: if player_count > HIGH_SCALE_PLAYER_THRESHOLD {
                Some(spawn_focus(spawn, layout))
            } else {
                seat.interest
            },
            ..seat
        }
    }
}

/// A subscription as texts.
pub ghost struct Wish {
    pub queries: Seq<Seq<char>>,
    pub around: Option<Seq<Seq<char>>>,
}

/// The texts of a subscription.
pub open spec fn wish_of(wanted: (Vec<String>, Option<Vec<String>>)) -> Wish {
    Wish {
        queries: texts(wanted.0@),
        around: match wanted.1 {
            Some(list) => Some(texts(list@)),
            None => None,
        },
    }
}

/// The texts of a subscription, if there is one.
pub open spec fn wants(wanted: Option<(Vec<String>, Option<Vec<String>>)>) -> Option<Wish> {
    match wanted {
        Some(pair) => Some(wish_of(pair)),
        None => None,
    }
}

/// The texts of subscriptions.
pub open spec fn wishes(list: Seq<(Vec<String>, Option<Vec<String>>)>) -> Seq<Wish> {
    list.map_values(|pair: (Vec<String>, Option<Vec<String>>)| wish_of(pair))
}

/// The subscription that a seat needs and does not have.
pub open spec fn wish(
    seat: Seat,
    connected: bool,
    player_count: u16,
    player: u16,
    spawn: u32,
    layout: Option<(u16, u16)>,
) -> Option<Wish> {
    if seat.subscribed == Some(player) || !connected {
        None
    } else {
        let focus = spawn_focus(spawn, layout);
        Some(
            Wish {
                queries: tactical_texts(player_count, player),
                around: if player_count > HIGH_SCALE_PLAYER_THRESHOLD && seat.interest != Some(
                    focus,
                ) {
                    Some(seq![spatial_text(focus)])
                } else {
                    None
                },
            },
        )
    }
}

/// The seat that is taken just now.
pub open spec fn newly_seated(seat: Seat, local: Option<u16>) -> Option<u16> {
    if local is Some && seat.bound != local {
        local
    } else {
        None
    }
}

/// The subscriptions that are asked for: by the seat that there was, once the
/// size of the match is known, and by the seat that is taken just now.
pub open spec fn asked(
    seat: Seat,
    config: Option<MatchConfig>,
    player_count: u16,
    local: Option<u16>,
    rows: Seq<PlayerState>,
    layout: Option<(u16, u16)>,
) -> Seq<Wish> {
    let first = match (config, seat.bound) {
        (Some(c), Some(player)) => wish(
            seat,
            true,
            c.player_count,
            player,
            spawn_of(rows, player),
            layout,
        ),
        _ => None,
    };
    let second = match newly_seated(seat, local) {
        Some(player) => wish(
            configured(seat, true, config, rows, layout),
            true,
            player_count,
            player,
            spawn_of(rows, player),
            layout,
        ),
        None => None,
    };
    let list = match first {
        Some(w) => seq![w],
        None => seq![],
    };
    match second {
        Some(w) => list.push(w),
        None => list,
    }
}

/// A seat once the size of the match is known.
pub open spec fn configured(
    seat: Seat,
    connected: bool,
    config: Option<MatchConfig>,
    rows: Seq<PlayerState>,
    layout: Option<(u16, u16)>,
) -> Seat {
    match (config, seat.bound) {
        (Some(c), Some(player)) => subscribed(
            seat,
            connected,
            c.player_count,
            player,
            spawn_of(rows, player),
            layout,
        ),
        _ => seat,
    }
}

/// A seat once the server has said which one it is.
pub open spec fn settled(
    seat: Seat,
    connected: bool,
    player_count: u16,
    local: Option<u16>,
    rows: Seq<PlayerState>,
    layout: Option<(u16, u16)>,
) -> Seat {
    match local {
        Some(player) => if seat.bound == Some(player) {
            seat
        } else {
            subscribed(
                Seat { bound: Some(player), book: Book { ready: false, ..seat.book }, ..seat },
                connected,
                player_count,
                player,
                spawn_of(rows, player),
                layout,
            )
        },
        None => seat,
    }
}

/// Whether command numbers are to be chosen now.
pub open spec fn is_seeding(seat: Seat, has_identity: bool) -> bool {
    !seat.book.ready && seat.bootstrap_ready && seat.tactical_ready && has_identity
        && seat.bound is Some
}

/// The commands once earlier receipts are known.
pub open spec fn seeded_book(book: Book, local_player: u32, receipts: Seq<CommandReceipt>) -> Book {
    let known = book.seeded(local_player, receipts);
    let last = known.seen_last(ordered_keys(known.pending.dom())).seen_last(
        ordered_keys(known.terminal),
    );
    Book { ready: last.next != u64::MAX, ..last }
}

/// The commands after receipts, with what the player is told.
pub open spec fn answered(
    seat: Seat,
    has_identity: bool,
    local_player: u32,
    receipts: Seq<CommandReceipt>,
) -> (Book, Seq<Update>) {
    let book = if is_seeding(seat, has_identity) {
        seeded_book(seat.book, local_player, receipts)
    } else {
        seat.book
    };
    book.after_receipts(local_player, receipts)
}

/// The cells after what was read of them.
pub open spec fn cells_now(
    ids: Map<u128, Axial>,
    cells: Map<Axial, CellView>,
    snapshot: AuthoritySnapshot,
) -> Map<Axial, CellView> {
    match snapshot.terrain {
        Some(rows) => laid_out(
            rows@,
            match snapshot.cells {
                Some(states) => states@,
                None => seq![],
            },
        ),
        None => cells_without(
            ids,
            match snapshot.cells {
                Some(states) => cells_after(ids, cells, states@),
                None => cells,
            },
            snapshot.absences@,
        ),
    }
}

/// The board after what was read of the cells.
pub open spec fn board_now(
    board: Ground,
    snapshot: AuthoritySnapshot,
    chunk_size: u32,
    mode: MapViewMode,
) -> Ground {
    let states = match snapshot.cells {
        Some(list) => list@,
        None => seq![],
    };
    let written = cells_after(board.places, board.cells, states);
    Ground {
        cells: cells_now(board.places, board.cells, snapshot),
        places: ids_now(board.places, snapshot),
        untakeable: match snapshot.terrain {
            Some(rows) => untakeable(rows@),
            None => board.untakeable,
        },
        numbers: match snapshot.terrain {
            Some(rows) => by_place(rows@).map_values(|row: CellTerrain| row.cell_id),
            None => board.numbers,
        },
        dirty: match snapshot.terrain {
            Some(rows) => board.dirty.union(chunks_over(board.cells.dom(), chunk_size)).union(
                chunks_over(by_place(rows@).dom(), chunk_size),
            ),
            None => chunks_after(
                board.places,
                board.cells,
                states,
                mode,
                chunk_size,
                board.dirty,
            ).union(
                chunks_over(fading(board.places, written, snapshot.absences@, mode), chunk_size),
            ),
        },
    }
}

/// What of the view has to be worked out again after what was read of the
/// cells; nothing is told where they are laid out anew.
pub open spec fn is_foreseen(
    changes: Option<CellChanges>,
    ids: Map<u128, Axial>,
    cells: Map<Axial, CellView>,
    snapshot: AuthoritySnapshot,
) -> bool {
    let states = match snapshot.cells {
        Some(list) => list@,
        None => seq![],
    };
    let written = cells_after(ids, cells, states);
    match changes {
        None => snapshot.terrain is Some,
        Some(c) => {
            &&& snapshot.terrain is None
            &&& c.cell_state == (states.len() > 0 || !(snapshot.absences@
                =~= Set::<u128>::empty()))
            &&& c.planning == (some_replan(ids, cells, states) || some_plan_fades(
                ids,
                written,
                snapshot.absences@,
            ))
            &&& c.ownership == (some_conquest(ids, cells, states) || some_owner_fades(
                ids,
                written,
                snapshot.absences@,
            ))
        },
    }
}

/// The places of cells after what was read of them.
pub open spec fn ids_now(ids: Map<u128, Axial>, snapshot: AuthoritySnapshot) -> Map<u128, Axial> {
    match snapshot.terrain {
        Some(rows) => by_number(rows@),
        None => ids,
    }
}

/// The player of a seat, as long as none is known the one before.
pub open spec fn player_now(local_player: u32, local: Option<u16>) -> u32 {
    match local {
        Some(player) => player as u32,
        None => local_player,
    }
}

impl Client {
    /// Brings the cells up to date.
    fn project_cells(
        &mut self,
        chunk_size: u32,
        terrain: &Option<Vec<CellTerrain>>,
        cells: &Option<Vec<CellState>>,
        absences: &KeySet,
        mode: MapViewMode,
        Ghost(snapshot): Ghost<AuthoritySnapshot>,
    ) -> (changes: Option<CellChanges>)
        requires
            chunk_size > 0,
            snapshot.terrain == *terrain,
            snapshot.cells == *cells,
            snapshot.absences == *absences,
        ensures
            is_foreseen(
                changes,
                old(self).board.id_to_coordinate@,
                old(self).board.cells@,
                snapshot,
            ),
            final(self).board@ == board_now(old(self).board@, snapshot, chunk_size, mode),
            final(self).session == old(self).session,
            final(self).tactical == old(self).tactical,
            final(self).facts == old(self).facts,
            final(self).flows == old(self).flows,
            final(self).active_fronts == old(self).active_fronts,
            final(self).contested_cells == old(self).contested_cells,
            final(self).retask == old(self).retask,
    {
        match terrain {
            Some(rows) => {
                match cells {
                    Some(states) => {
                        self.board.rebuild_cells(chunk_size, rows, states);
                    },
                    None => {
                        let states: Vec<CellState> = Vec::new();
                        assert(states@ =~= seq![]);
                        self.board.rebuild_cells(chunk_size, rows, &states);
                    },
                }
                None
            },
            None => {
                let written = match cells {
                    Some(states) => self.board.update_cells(chunk_size, states, mode),
                    None => CellChanges { cell_state: false, planning: false, ownership: false },
                };
                let gone = self.board.neutralize_absent_cells(chunk_size, absences, mode);
                Some(
                    CellChanges {
                        cell_state: written.cell_state || gone.cell_state,
                        planning: written.planning || gone.planning,
                        ownership: written.ownership || gone.ownership,
                    },
                )
            },
        }
    }

    /// Takes in the size of the match, and opens the seat if it was waiting for
    /// that.
    fn take_config(
        &mut self,
        connected: bool,
        config: MatchConfig,
        rows: &Vec<PlayerState>,
        layout: Option<(u16, u16)>,
    ) -> (wanted: Option<(Vec<String>, Option<Vec<String>>)>)
        ensures
            final(self).session@ == configured(
                old(self).session@,
                connected,
                Some(config),
                rows@,
                layout,
            ),
            final(self).facts@ == old(self).facts@.with_config(Some(config)),
            wants(wanted) == (match old(self).session@.bound {
                Some(player) => wish(
                    old(self).session@,
                    connected,
                    config.player_count,
                    player,
                    spawn_of(rows@, player),
                    layout,
                ),
                None => None,
            }),
            final(self).tactical == old(self).tactical,
            final(self).board == old(self).board,
            final(self).flows == old(self).flows,
            final(self).active_fronts == old(self).active_fronts,
            final(self).contested_cells == old(self).contested_cells,
            final(self).retask == old(self).retask,
    {
        self.facts.player_count = config.player_count;
        self.facts.connection = resize(&self.facts.connection, config.player_count);
        self.facts.conquest_threshold_bps = config.conquest_threshold_bps;
        self.facts.max_elevation_step = config.max_elevation_step as u16;
        match self.session.bound_player {
            Some(player) => self.session.ensure_tactical_subscriptions(
                connected,
                config.player_count,
                player,
                spawn_cell(rows, player),
                layout,
            ),
            None => None,
        }
    }

    /// Takes in the state of the match.
    fn take_match_state(&mut self, state: MatchState)
        ensures
            final(self).facts@ == old(self).facts@.with_state(Some(state)),
            final(self).session == old(self).session,
            final(self).tactical == old(self).tactical,
            final(self).board == old(self).board,
            final(self).flows == old(self).flows,
            final(self).active_fronts == old(self).active_fronts,
            final(self).contested_cells == old(self).contested_cells,
            final(self).retask == old(self).retask,
    {
        self.facts.phase =
        match state.phase {
            RemotePhase::Lobby => MatchPhase::Lobby,
            RemotePhase::Running => MatchPhase::Running,
            RemotePhase::Completed => MatchPhase::Victory { player: state.winner_player_id as u32 },
        };
        self.facts.logical_step = state.logical_step;
        self.facts.capturable_cells = state.capturable_cells;
        self.facts.required_control = state.required_control;
        self.facts.claimed_players = state.claimed_players;
    }

    /// Takes in who sits where; whether the player of this client changes, and
    /// what a new seat needs.
    fn take_players(
        &mut self,
        connected: bool,
        slots: &Vec<PlayerSlot>,
        identity: Option<Identity>,
        rows: &Vec<PlayerState>,
        layout: Option<(u16, u16)>,
    ) -> (seat: (Option<u16>, Option<(Vec<String>, Option<Vec<String>>)>))
        ensures
            final(self).session@ == settled(
                old(self).session@,
                connected,
                old(self).facts.player_count,
                local_seat(old(self).facts.player_count, slots@, identity),
                rows@,
                layout,
            ),
            final(self).facts@ == old(self).facts@.with_players(Some(*slots), identity),
            seat.0 == newly_seated(
                old(self).session@,
                local_seat(old(self).facts.player_count, slots@, identity),
            ),
            wants(seat.1) == (match seat.0 {
                Some(player) => wish(
                    old(self).session@,
                    connected,
                    old(self).facts.player_count,
                    player,
                    spawn_of(rows@, player),
                    layout,
                ),
                None => None,
            }),
            final(self).tactical == old(self).tactical,
            final(self).board == old(self).board,
            final(self).flows == old(self).flows,
            final(self).active_fronts == old(self).active_fronts,
            final(self).contested_cells == old(self).contested_cells,
            final(self).retask == old(self).retask,
    {
        let (connection, local) = read_players(self.facts.player_count, slots, identity);
        self.facts.connection = connection;
        match local {
            Some(player) => {
                self.facts.local_player = player as u32;
                let fresh: bool = self.session.bind(player);
                if fresh {
                    let wanted = self.session.ensure_tactical_subscriptions(
                        connected,
                        self.facts.player_count,
                        player,
                        spawn_cell(rows, player),
                        layout,
                    );
                    (Some(player), wanted)
                } else {
                    (None, None)
                }
            },
            None => (None, None),
        }
    }

    /// Takes receipts in: the first ones choose where command numbers start.
    fn take_receipts(&mut self, has_identity: bool, receipts: Vec<CommandReceipt>) -> (updates: Vec<
        ServerUpdate,
    >)
        requires
            old(self).session@.book.is_numbered(),
        ensures
            final(self).session@ == (Seat {
                book: answered(
                    old(self).session@,
                    has_identity,
                    old(self).facts.local_player,
                    receipts@,
                ).0,
                ..old(self).session@
            }),
            said(updates@) == answered(
                old(self).session@,
                has_identity,
                old(self).facts.local_player,
                receipts@,
            ).1,
            final(self).session@.book.is_numbered(),
            final(self).facts == old(self).facts,
            final(self).tactical == old(self).tactical,
            final(self).board == old(self).board,
            final(self).flows == old(self).flows,
            final(self).active_fronts == old(self).active_fronts,
            final(self).contested_cells == old(self).contested_cells,
            final(self).retask == old(self).retask,
    {
        if !self.session.book.command_ids_ready
            && self.session.subscription_lifecycle.commands_ready() && has_identity
            && self.session.bound_player.is_some() {
            self.session.book.seed_command_ids(self.facts.local_player, &receipts);
        }
        self.session.book.process_receipts(self.facts.local_player, receipts)
    }
}

/// What the player's running orders hold after an update.
pub open spec fn offers_now(
    old_client: Client,
    changes: TacticalChanges,
    full: bool,
    ids: Map<u128, Axial>,
    after: TacticalCache,
    local_player: u32,
) -> Offers {
    let before = old_client.tactical;
    let was = scene_of(
        old_client.board.id_to_coordinate@,
        before,
        old_client.facts.local_player,
    );
    let is = scene_of(ids, after, local_player);
    if full || local_player != old_client.facts.local_player {
        Offers::nothing().with_rows(
            is,
            after,
            after.packets@.dom(),
            after.sources@.dom(),
            after.destinations@.dom(),
            true,
        )
    } else {
        let packets = touched_packets(before, changes);
        let sources = touched_sources(before, changes);
        let destinations = touched_destinations(before, changes);
        old_client.retask.offers().with_rows(
            was,
            before,
            packets,
            sources,
            destinations,
            false,
        ).with_rows(is, after, packets, sources, destinations, true)
    }
}

/// What the player's running orders hold once the rows that an update touches
/// are taken out.
pub open spec fn offers_before(old_client: Client, changes: TacticalChanges, full: bool) -> Offers {
    let before = old_client.tactical;
    if full {
        old_client.retask.offers()
    } else {
        old_client.retask.offers().with_rows(
            scene_of(
                old_client.board.id_to_coordinate@,
                before,
                old_client.facts.local_player,
            ),
            before,
            touched_packets(before, changes),
            touched_sources(before, changes),
            touched_destinations(before, changes),
            false,
        )
    }
}

/// Whether movements are shown as they are after an update: all of them, or
/// those that are touched.
pub open spec fn flows_are_current(
    flows: Map<u128, ActiveFlow>,
    touched: Option<Set<u128>>,
    old_flows: Map<u128, ActiveFlow>,
    ids: Map<u128, Axial>,
    cells: Map<Axial, CellView>,
    cache: TacticalCache,
) -> bool {
    match touched {
        None => all_shown(flows, ids, cells, cache),
        Some(keys) => some_shown(flows, keys, old_flows, ids, cells, cache),
    }
}

pub open spec fn all_shown(
    flows: Map<u128, ActiveFlow>,
    ids: Map<u128, Axial>,
    cells: Map<Axial, CellView>,
    cache: TacticalCache,
) -> bool {
    forall|k: u128| #[trigger] shows(flows, k, cache.flow_at(ids, cells, k))
}

pub open spec fn some_shown(
    flows: Map<u128, ActiveFlow>,
    keys: Set<u128>,
    old_flows: Map<u128, ActiveFlow>,
    ids: Map<u128, Axial>,
    cells: Map<Axial, CellView>,
    cache: TacticalCache,
) -> bool {
    &&& forall|k: u128|
        keys.contains(k) ==> #[trigger] shows(flows, k, cache.flow_at(ids, cells, k))
    &&& forall|k: u128|
        !keys.contains(k) ==> (#[trigger] flows.contains_key(k) <==> old_flows.contains_key(k)) && (
        old_flows.contains_key(k) ==> flows[k] == old_flows[k])
}

/// Where all movements were shown as they are, drawing only the touched ones
/// again shows all of them as they are now, on the same ground.
pub proof fn law_kept_flows_are_current(
    before: TacticalCache,
    changes: TacticalChanges,
    after: TacticalCache,
    ids: Map<u128, Axial>,
    cells: Map<Axial, CellView>,
    old_flows: Map<u128, ActiveFlow>,
    flows: Map<u128, ActiveFlow>,
)
    requires
        after.has_rows_after(before, changes),
        flows_are_current(old_flows, None, old_flows, ids, cells, before),
        flows_are_current(
            flows,
            Some(touched_flows(before, changes, after)),
            old_flows,
            ids,
            cells,
            after,
        ),
    ensures
        flows_are_current(flows, None, flows, ids, cells, after),
{
    let touched = touched_flows(before, changes, after);
    assert forall|k: u128| #[trigger] shows(flows, k, after.flow_at(ids, cells, k)) by {
        if !touched.contains(k) {
            law_untouched_flows_stay(before, changes, after, ids, cells, k);
            assert(shows(old_flows, k, before.flow_at(ids, cells, k)));
            assert(flows.contains_key(k) <==> old_flows.contains_key(k));
        }
    }
}

/// Whether fronts and contested cells are shown as they are.
pub open spec fn fronts_are_current(
    active_fronts: Seq<ActiveFront>,
    contested: Map<Axial, ContestedCellView>,
    ids: Map<u128, Axial>,
    cells: Map<Axial, CellView>,
    fronts: Seq<CombatFront>,
    local_player: u32,
) -> bool {
    &&& active_fronts == seen_fronts(ids, fronts, local_player)
    &&& forall|c: Axial| #[trigger]
        contested.contains_key(c) ==> is_contest(ids, cells, fronts, c, contested[c])
    &&& forall|c: Axial, contest: ContestedCellView| #[trigger]
        is_contest(ids, cells, fronts, c, contest) ==> contested.contains_key(c)
}

/// Whether receipts have been answered.
pub open spec fn is_answered(
    after: Seat,
    told: Seq<Update>,
    seat: Seat,
    has_identity: bool,
    local_player: u32,
    receipts: Option<Vec<CommandReceipt>>,
) -> bool {
    match receipts {
        Some(list) => {
            let (book, updates) = answered(seat, has_identity, local_player, list@);
            after == (Seat { book, ..seat }) && told == updates
        },
        None => after == seat && told == Seq::<Update>::empty(),
    }
}

/// The seat of this client among those that were read.
pub open spec fn seat_now(
    player_count: u16,
    players: Option<Vec<PlayerSlot>>,
    identity: Option<Identity>,
) -> Option<u16> {
    match players {
        Some(slots) => local_seat(player_count, slots@, identity),
        None => None,
    }
}

impl Client {
    /// Takes in the size and the state of the match, and who sits where.
    fn take_seat_rows(
        &mut self,
        config: Option<MatchConfig>,
        match_state: Option<MatchState>,
        players: Option<Vec<PlayerSlot>>,
        identity: Option<Identity>,
        player_rows: &Vec<PlayerState>,
        layout: Option<(u16, u16)>,
    ) -> (taken: (Vec<(Vec<String>, Option<Vec<String>>)>, Option<u16>))
        ensures
            final(self).session@ == settled(
                configured(old(self).session@, true, config, player_rows@, layout),
                true,
                final(self).facts.player_count,
                seat_now(final(self).facts.player_count, players, identity),
                player_rows@,
                layout,
            ),
            final(self).facts@ == old(self).facts@.with_config(config).with_state(
                match_state,
            ).with_players(players, identity),
            taken.1 == newly_seated(
                old(self).session@,
                seat_now(final(self).facts.player_count, players, identity),
            ),
            wishes(taken.0@) == asked(
                old(self).session@,
                config,
                final(self).facts.player_count,
                seat_now(final(self).facts.player_count, players, identity),
                player_rows@,
                layout,
            ),
            final(self).tactical == old(self).tactical,
            final(self).board == old(self).board,
            final(self).flows == old(self).flows,
            final(self).active_fronts == old(self).active_fronts,
            final(self).contested_cells == old(self).contested_cells,
            final(self).retask == old(self).retask,
    {
        let mut subscriptions: Vec<(Vec<String>, Option<Vec<String>>)> = Vec::new();
        if let Some(c) = config {
            if let Some(wanted) = self.take_config(true, c, player_rows, layout) {
                subscriptions.push(wanted);
            }
        }
        if let Some(state) = match_state {
            self.take_match_state(state);
        }
        let mut newly_bound: Option<u16> = None;
        if let Some(slots) = players {
            let (bound, wanted) = self.take_players(true, &slots, identity, player_rows, layout);
            newly_bound = bound;
            if let Some(queries) = wanted {
                subscriptions.push(queries);
            }
        }
        (subscriptions, newly_bound)
    }

    /// Takes receipts in, if any were read.
    fn take_any_receipts(&mut self, has_identity: bool, receipts: Option<Vec<CommandReceipt>>) -> (
        updates: Vec<ServerUpdate>)
        requires
            old(self).session@.book.is_numbered(),
        ensures
            final(self).session@.book.is_numbered(),
            is_answered(
                final(self).session@,
                said(updates@),
                old(self).session@,
                has_identity,
                old(self).facts.local_player,
                receipts,
            ),
            final(self).facts == old(self).facts,
            final(self).tactical == old(self).tactical,
            final(self).board == old(self).board,
            final(self).flows == old(self).flows,
            final(self).active_fronts == old(self).active_fronts,
            final(self).contested_cells == old(self).contested_cells,
            final(self).retask == old(self).retask,
    {
        match receipts {
            Some(list) => self.take_receipts(has_identity, list),
            None => {
                let none: Vec<ServerUpdate> = Vec::new();
                assert(said(none@) =~= Seq::<Update>::empty());
                none
            },
        }
    }

    /// Takes in what is known of the match as a whole, and answers commands.
    fn take_facts(
        &mut self,
        facts: FactRows,
        player_rows: &Vec<PlayerState>,
        layout: Option<(u16, u16)>,
    ) -> (taken: FactReport)
        requires
            old(self).session@.book.is_numbered(),
        ensures
            final(self).session@.book.is_numbered(),
            final(self).facts@ == old(self).facts@.after(facts),
            taken.newly_bound == newly_seated(
                old(self).session@,
                seat_now(final(self).facts.player_count, facts.players, facts.identity),
            ),
            wishes(taken.subscriptions@) == asked(
                old(self).session@,
                facts.config,
                final(self).facts.player_count,
                seat_now(final(self).facts.player_count, facts.players, facts.identity),
                player_rows@,
                layout,
            ),
            is_answered(
                final(self).session@,
                said(taken.updates@),
                settled(
                    configured(old(self).session@, true, facts.config, player_rows@, layout),
                    true,
                    final(self).facts.player_count,
                    seat_now(final(self).facts.player_count, facts.players, facts.identity),
                    player_rows@,
                    layout,
                ),
                facts.identity is Some,
                final(self).facts.local_player,
                facts.receipts,
            ),
            final(self).tactical == old(self).tactical,
            final(self).board == old(self).board,
            final(self).flows == old(self).flows,
            final(self).active_fronts == old(self).active_fronts,
            final(self).contested_cells == old(self).contested_cells,
            final(self).retask == old(self).retask,
    {
        let (subscriptions, newly_bound) = self.take_seat_rows(
            facts.config,
            facts.match_state,
            facts.players,
            facts.identity,
            player_rows,
            layout,
        );
        if let Some(states) = facts.player_states {
            self.facts.authoritative_control = Some(control(&states));
        }
        if let Some(policies) = facts.mobilization {
            if let Some(target) = policy(&policies, self.facts.local_player) {
                self.facts.mobilization_target_bps = target;
            }
        }
        let updates = self.take_any_receipts(facts.identity.is_some(), facts.receipts);
        FactReport { subscriptions, updates, newly_bound }
    }

    fn project_flows(
        &mut self,
        impact: &ProjectionImpact,
        full: bool,
        Ghost(before): Ghost<TacticalCache>,
        Ghost(changes): Ghost<TacticalChanges>,
    )
        requires
            !full ==> is_touched(*impact, before, changes, old(self).tactical),
        ensures
            flows_are_current(
                final(self).flows@,
                if full {
                    None
                } else {
                    Some(touched_flows(before, changes, old(self).tactical))
                },
                old(self).flows@,
                old(self).board.id_to_coordinate@,
                old(self).board.cells@,
                old(self).tactical,
            ),
            final(self).session == old(self).session,
            final(self).tactical == old(self).tactical,
            final(self).board == old(self).board,
            final(self).facts == old(self).facts,
            final(self).active_fronts == old(self).active_fronts,
            final(self).contested_cells == old(self).contested_cells,
            final(self).retask == old(self).retask,
    {
        if full {
            self.flows = replace_authoritative_flows(&self.board, &self.tactical);
        } else {
            update_authoritative_flows(
                &mut self.flows,
                &self.board,
                &self.tactical,
                &impact.flow_packet_ids,
            );
            proof {
                let touched = touched_flows(before, changes, self.tactical);
                assert(impact.flow_packet_ids@ =~= touched);
            }
        }
    }

    fn project_fronts(&mut self)
        ensures
            fronts_are_current(
                final(self).active_fronts@,
                final(self).contested_cells@,
                old(self).board.id_to_coordinate@,
                old(self).board.cells@,
                rows_in_order(old(self).tactical.fronts@),
                old(self).facts.local_player,
            ),
            final(self).session == old(self).session,
            final(self).tactical == old(self).tactical,
            final(self).board == old(self).board,
            final(self).facts == old(self).facts,
            final(self).flows == old(self).flows,
            final(self).retask == old(self).retask,
    {
        let (fronts, contested) = fronts_to_overlays(
            &self.board,
            &self.tactical.fronts,
            self.facts.local_player,
        );
        self.active_fronts = fronts;
        self.contested_cells = contested;
    }

    fn project_offers(
        &mut self,
        impact: &ProjectionImpact,
        anew: bool,
        Ghost(before): Ghost<Client>,
        Ghost(changes): Ghost<TacticalChanges>,
        Ghost(full): Ghost<bool>,
    ) -> (outcome: (RetaskChange, Option<RetaskBoard>))
        requires
            anew == (full || old(self).facts.local_player != before.facts.local_player),
            !full ==> is_touched(*impact, before.tactical, changes, old(self).tactical),
            !full ==> old(self).retask.offers() == before.retask.offers().with_rows(
                scene_of(
                    before.board.id_to_coordinate@,
                    before.tactical,
                    before.facts.local_player,
                ),
                before.tactical,
                touched_packets(before.tactical, changes),
                touched_sources(before.tactical, changes),
                touched_destinations(before.tactical, changes),
                false,
            ),
        ensures
            final(self).retask.offers() == offers_now(
                before,
                changes,
                full,
                old(self).board.id_to_coordinate@,
                old(self).tactical,
                old(self).facts.local_player,
            ),
            outcome.0 == (if anew {
                RetaskChange::Rebuilt
            } else if touches_offers(before.tactical, changes) {
                RetaskChange::Touched
            } else {
                RetaskChange::Untouched
            }),
            outcome.1 == (if anew {
                Some(old(self).retask)
            } else {
                None
            }),
            final(self).retask.revision == old(self).retask.revision,
            final(self).retask.active_order_ids@ == (if outcome.0 == RetaskChange::Untouched {
                old(self).retask.active_order_ids@
            } else {
                final(self).retask.order_strength_by_cell@.dom()
            }),
            final(self).retask.handle_orders@ == (if outcome.0 == RetaskChange::Rebuilt {
                Map::<Axial, KeySet>::empty()
            } else {
                old(self).retask.handle_orders@
            }),
            final(self).session == old(self).session,
            final(self).tactical == old(self).tactical,
            final(self).board == old(self).board,
            final(self).facts == old(self).facts,
            final(self).flows == old(self).flows,
            final(self).active_fronts == old(self).active_fronts,
            final(self).contested_cells == old(self).contested_cells,
    {
        if anew {
            let previous = self.retask.rebuild_retask_indexes(
                &self.board.id_to_coordinate,
                &self.tactical,
                self.facts.local_player,
            );
            return (RetaskChange::Rebuilt, Some(previous));
        }
        if impact.retask_changed() {
            self.retask.apply_retask_row_changes(
                &self.board.id_to_coordinate,
                &self.tactical,
                self.facts.local_player,
                impact,
                true,
            );
            self.retask.refresh_retask_order_kinds();
            return (RetaskChange::Touched, None);
        }
        proof {
            lemma_nothing_touched(
                self.retask.offers(),
                scene_of(self.board.id_to_coordinate@, self.tactical, self.facts.local_player),
                self.tactical,
            );
        }
        (RetaskChange::Untouched, None)
    }

    /// Brings everything up to date with what was read of the tables that are
    /// stale, and with the rows that came in.
    #[verifier::rlimit(60)]
    pub fn synchronize(
        &mut self,
        dirty: u32,
        snapshot: AuthoritySnapshot,
        changes: TacticalChanges,
        player_rows: &Vec<PlayerState>,
        layout: Option<(u16, u16)>,
        chunk_size: u32,
        mode: MapViewMode,
    ) -> (report: SyncReport)
        requires
            old(self).is_sound(),
            snapshot.tactical matches Some(cache) ==> cache.is_sound(),
            chunk_size > 0,
        ensures
            final(self).is_sound(),
            final(self).tactical.has_rows_after(
                match snapshot.tactical {
                    Some(cache) => cache,
                    None => old(self).tactical,
                },
                changes,
            ),
            final(self).board@ == board_now(old(self).board@, snapshot, chunk_size, mode),
            is_foreseen(
                report.cells,
                old(self).board.id_to_coordinate@,
                old(self).board.cells@,
                snapshot,
            ),
            final(self).facts@ == (if is_stale(dirty, TERRAIN_DIRTY | ORDERS_DIRTY) {
                Facts {
                    active_orders: final(self).tactical.orders@.dom().len() as int,
                    queued_infantry: queued_at(
                        final(self).tactical.sources@,
                        ordered_keys(final(self).tactical.sources@.dom()),
                    ),
                    ..old(self).facts@.after(snapshot.facts)
                }
            } else {
                old(self).facts@.after(snapshot.facts)
            }),
            report.player_changed == (final(self).facts.local_player != old(
                self,
            ).facts.local_player),
            report.facts.newly_bound == newly_seated(
                old(self).session@,
                seat_now(
                    final(self).facts.player_count,
                    snapshot.facts.players,
                    snapshot.facts.identity,
                ),
            ),
            wishes(report.facts.subscriptions@) == asked(
                old(self).session@,
                snapshot.facts.config,
                final(self).facts.player_count,
                seat_now(
                    final(self).facts.player_count,
                    snapshot.facts.players,
                    snapshot.facts.identity,
                ),
                player_rows@,
                layout,
            ),
            is_answered(
                final(self).session@,
                said(report.facts.updates@),
                settled(
                    configured(
                        old(self).session@,
                        true,
                        snapshot.facts.config,
                        player_rows@,
                        layout,
                    ),
                    true,
                    final(self).facts.player_count,
                    seat_now(
                        final(self).facts.player_count,
                        snapshot.facts.players,
                        snapshot.facts.identity,
                    ),
                    player_rows@,
                    layout,
                ),
                snapshot.facts.identity is Some,
                final(self).facts.local_player,
                snapshot.facts.receipts,
            ),
            flows_are_current(
                final(self).flows@,
                if snapshot.tactical is Some {
                    None
                } else {
                    Some(touched_flows(old(self).tactical, changes, final(self).tactical))
                },
                old(self).flows@,
                final(self).board.id_to_coordinate@,
                final(self).board.cells@,
                final(self).tactical,
            ),
            is_stale(dirty, TERRAIN_DIRTY | FRONTS_DIRTY) ==> fronts_are_current(
                final(self).active_fronts@,
                final(self).contested_cells@,
                final(self).board.id_to_coordinate@,
                final(self).board.cells@,
                rows_in_order(final(self).tactical.fronts@),
                final(self).facts.local_player,
            ),
            !is_stale(dirty, TERRAIN_DIRTY | FRONTS_DIRTY) ==> final(self).active_fronts == old(
                self
            ).active_fronts && final(self).contested_cells == old(self).contested_cells,
            final(self).retask.offers() == offers_now(
                *old(self),
                changes,
                snapshot.tactical is Some,
                final(self).board.id_to_coordinate@,
                final(self).tactical,
                final(self).facts.local_player,
            ),
            report.retask == (if snapshot.tactical is Some || report.player_changed {
                RetaskChange::Rebuilt
            } else if touches_offers(old(self).tactical, changes) {
                RetaskChange::Touched
            } else {
                RetaskChange::Untouched
            }),
            match report.previous {
                Some(board) => {
                    &&& report.retask == RetaskChange::Rebuilt
                    &&& board.offers() == offers_before(
                        *old(self),
                        changes,
                        snapshot.tactical is Some,
                    )
                    &&& board.active_order_ids == old(self).retask.active_order_ids
                    &&& board.handle_orders == old(self).retask.handle_orders
                },
                None => report.retask != RetaskChange::Rebuilt,
            },
            final(self).retask.revision == old(self).retask.revision,
            final(self).retask.active_order_ids@ == (if report.retask == RetaskChange::Untouched {
                old(self).retask.active_order_ids@
            } else {
                final(self).retask.order_strength_by_cell@.dom()
            }),
            final(self).retask.handle_orders@ == (if report.retask == RetaskChange::Rebuilt {
                Map::<Axial, KeySet>::empty()
            } else {
                old(self).retask.handle_orders@
            }),
    {
        let ghost given = snapshot;
        let ghost before = *self;
        let AuthoritySnapshot { terrain, cells, absences, facts, tactical } = snapshot;
        let full: bool = tactical.is_some();
        let previous_player: u32 = self.facts.local_player;
        let impact = self.take_in_rows(changes, tactical);
        let cell_changes = self.project_cells(
            chunk_size,
            &terrain,
            &cells,
            &absences,
            mode,
            Ghost(given),
        );
        let taken = self.take_facts(facts, player_rows, layout);
        let player_changed: bool = self.facts.local_player != previous_player;
        self.project_flows(&impact, full, Ghost(before.tactical), Ghost(changes));
        if has_any(dirty, TERRAIN_DIRTY | FRONTS_DIRTY) {
            self.project_fronts();
        }
        let (retask, previous) = self.project_offers(
            &impact,
            full || player_changed,
            Ghost(before),
            Ghost(changes),
            Ghost(full),
        );
        if has_any(dirty, TERRAIN_DIRTY | ORDERS_DIRTY) {
            self.facts.active_orders = self.tactical.orders.len();
            self.facts.queued_infantry = queued_infantry(&self.tactical.sources);
        }
        SyncReport { facts: taken, cells: cell_changes, player_changed, retask, previous }
    }
}

/// Rows under no numbers change nothing.
proof fn lemma_nothing_touched(offers: Offers, scene: crate::retask::Scene, cache: TacticalCache)
    ensures
        ({
            let none = Set::<u128>::empty();
            offers.with_rows(scene, cache, none, none, none, true) == offers
        }),
{
    let none = Set::<u128>::empty();
    let keys = Seq::<u128>::empty();
    assert(keys.to_set() =~= none);
    crate::table::lemma_ordered_keys_are(keys, none);
}

/// How many cells each player controls.
fn control(rows: &Vec<PlayerState>) -> (table: Table<u32>)
    ensures
        table@ == control_of(rows@),
{
    let mut table: Table<u32> = Table::new();
    let mut i: usize = 0;
    assert(rows@.take(0) =~= Seq::<PlayerState>::empty());
    while i < rows.len()
        invariant
            i <= rows@.len(),
            table@ == control_of(rows@.take(i as int)),
        decreases rows.len() - i,
    {
        assert(rows@.take(i + 1).drop_last() =~= rows@.take(i as int));
        table.insert(rows[i].player_id as u128, rows[i].controlled_cells);
        i += 1;
    }
    assert(rows@.take(i as int) =~= rows@);
    table
}

/// The mobilization that a player has asked for.
fn policy(rows: &Vec<MobilizationPolicy>, player: u32) -> (target: Option<u32>)
    ensures
        target == policy_of(rows@, player),
{
    let mut i: usize = 0;
    assert(rows@.skip(0) =~= rows@);
    while i < rows.len()
        invariant
            i <= rows@.len(),
            policy_of(rows@, player) == policy_of(rows@.skip(i as int), player),
        decreases rows.len() - i,
    {
        assert(rows@.skip(i as int).drop_first() =~= rows@.skip(i + 1));
        if rows[i].player_id as u32 == player {
            return Some(rows[i].target_bps);
        }
        i += 1;
    }
    None
}

} // verus!
