use hex_core::axials::{AxialMap, AxialSet};
use hex_core::client::{
    queued_infantry, resize, spawn_cell, tables_to_read, AuthoritySnapshot, Client, FactRows, MatchConfig,
    MatchFacts, MatchPhase, MatchState, MobilizationPolicy, PlayerState, RemotePhase,
};
use hex_core::contest::{attacker_pressure, fronts_to_overlays, ContestedCellView};
use hex_core::coord::Axial;
use hex_core::deltas::{
    CellState, LifecycleEvent, Signals, ALL_DIRTY, CELLS_DIRTY, FLOWS_DIRTY, FRONTS_DIRTY, ORDERS_DIRTY,
};
use hex_core::flows::{packet_to_flow, replace_authoritative_flows, resolved_packet_route};
use hex_core::impact::{
    flow_order_projection_changed, retask_order_projection_changed, ProjectionImpact,
};
use hex_core::ledger::{
    adjust_counted_set, adjust_strength, CellSets, Claims, Crossings, Strengths,
};
use hex_core::map::TerrainKind;
use hex_core::projection::{
    owner, read_players, CellBoard, CellTerrain, ConnectionState, Identity, MapViewMode, PlayerSlot,
};
use hex_core::retask::{RetaskBoard, RetaskChange};
use hex_core::session::{LifecycleEffect, Session};
use hex_core::table::{file_under, remove_index_value, KeySet, Table};
use hex_core::tactical::{
    CombatFront, OrderKind, OrderStatus, TacticalCache, TacticalChanges, TransferDestination,
    TransferOrder, TransferSource, TransitPacket, TransitRoute,
};

const CHUNK: u32 = 8;

/// A row of five cells, numbered from 1 on.
fn terrain() -> Vec<CellTerrain> {
    (1..=5)
        .map(|id| CellTerrain {
            cell_id: id,
            q: id as i32,
            r: 0,
            terrain: TerrainKind::Plains,
            elevation: 0,
            capturable: id != 5,
            passable: id != 5,
        })
        .collect()
}

fn state(cell_id: u32, owner_player_id: u16, infantry: u64) -> CellState {
    CellState {
        cell_id,
        owner_player_id,
        civilians: 10,
        infantry,
        military_capacity: 100,
    }
}

fn packet(packet_key: u64, order_id: u64, from: u32, to: u32, infantry: u64) -> TransitPacket {
    TransitPacket {
        packet_key,
        order_id,
        route_id: 0,
        owner_player_id: 1,
        current_cell: from,
        destination_cell: to,
        route_index: 0,
        infantry,
    }
}

fn order(order_id: u64) -> TransferOrder {
    TransferOrder {
        order_id,
        player_id: 1,
        status: OrderStatus::Active,
        kind: OrderKind::PushFront,
        client_command_id: order_id,
    }
}

fn front(front_key: u64, from: u32, to: u32, attacker: u16, queued: u64) -> CombatFront {
    CombatFront {
        front_key,
        from_cell: from,
        to_cell: to,
        attacker_player_id: attacker,
        defender_player_id: 2,
        attacker_engaged: 3,
        defender_engaged: 4,
        attacker_casualties: 1,
        queued_infantry: queued,
        frontage: 8,
    }
}

fn board() -> CellBoard {
    let mut board = CellBoard::new();
    board.rebuild_cells(
        CHUNK,
        &terrain(),
        &vec![state(1, 1, 20), state(2, 1, 30), state(3, 2, 40)],
    );
    board
}

fn rows() -> TacticalCache {
    TacticalCache::capture(
        vec![packet(1, 7, 1, 3, 6), packet(2, 7, 2, 3, 4), packet(3, 8, 2, 1, 5)],
        vec![TransitRoute { route_id: 4, cells: vec![1, 2, 3] }],
        vec![front(1, 2, 3, 1, 9)],
        vec![order(7), order(8)],
        vec![TransferSource { source_key: 1, order_id: 7, cell_id: 1, queued_infantry: 11 }],
        vec![TransferDestination {
            destination_key: 1,
            order_id: 7,
            cell_id: 3,
            target_infantry: 20,
            received_infantry: 5,
        }],
    )
}

fn facts() -> MatchFacts {
    MatchFacts {
        local_player: 0,
        player_count: 0,
        connection: Vec::new(),
        conquest_threshold_bps: 0,
        max_elevation_step: 0,
        phase: MatchPhase::Lobby,
        logical_step: 0,
        capturable_cells: 0,
        required_control: 0,
        claimed_players: 0,
        authoritative_control: None,
        mobilization_target_bps: 0,
        active_orders: 0,
        queued_infantry: 0,
    }
}

fn client() -> Client {
    Client {
        session: Session::new(1),
        tactical: TacticalCache::new(),
        board: CellBoard::new(),
        facts: facts(),
        flows: Table::new(),
        active_fronts: Vec::new(),
        contested_cells: AxialMap::new(),
        retask: RetaskBoard::new(),
    }
}

fn no_facts() -> FactRows {
    FactRows {
        identity: Some(ME),
        config: None,
        match_state: None,
        player_states: None,
        players: None,
        mobilization: None,
        receipts: None,
    }
}

const ME: Identity = Identity { high: 1, low: 2 };

const YOU: Identity = Identity { high: 1, low: 3 };

fn slot(player_id: u16, identity: Option<Identity>, connected: bool) -> PlayerSlot {
    PlayerSlot { player_id, identity, connected }
}

/// A client of player 1 that has read everything.
fn synchronized() -> Client {
    let mut client = client();
    let player_rows = vec![PlayerState { player_id: 1, controlled_cells: 2, spawn_cell_id: 1 }];
    let snapshot = AuthoritySnapshot {
        terrain: Some(terrain()),
        cells: Some(vec![state(1, 1, 20), state(2, 1, 30), state(3, 2, 40)]),
        absences: KeySet::new(),
        facts: FactRows {
            identity: Some(ME),
            config: Some(MatchConfig {
                player_count: 2,
                conquest_threshold_bps: 8_000,
                max_elevation_step: 1,
                map_width: 5,
                chunk_size: 8,
            }),
            match_state: Some(MatchState {
                phase: RemotePhase::Running,
                winner_player_id: 0,
                logical_step: 12,
                capturable_cells: 4,
                required_control: 4,
                claimed_players: 2,
            }),
            player_states: Some(player_rows.clone()),
            players: Some(vec![slot(1, Some(ME), true), slot(2, Some(YOU), false)]),
            mobilization: Some(vec![MobilizationPolicy { player_id: 1, target_bps: 2_500 }]),
            receipts: None,
        },
        tactical: Some(rows()),
    };
    let report = client.synchronize(
        ALL_DIRTY,
        snapshot,
        TacticalChanges::new(),
        &player_rows,
        None,
        CHUNK,
        MapViewMode::Overview,
    );
    assert_eq!(report.facts.newly_bound, Some(1));
    assert_eq!(report.facts.subscriptions.len(), 1);
    assert!(report.player_changed);
    assert_eq!(report.cells, None);
    assert_eq!(report.retask, RetaskChange::Rebuilt);
    client
}

#[test]
fn everything_is_read_and_shown() {
    let client = synchronized();
    assert_eq!(client.facts.local_player, 1);
    assert_eq!(client.facts.phase, MatchPhase::Running);
    assert_eq!(
        client.facts.connection,
        vec![ConnectionState::Connected, ConnectionState::ClaimedOffline]
    );
    assert_eq!(client.facts.mobilization_target_bps, 2_500);
    assert_eq!(client.facts.active_orders, 2);
    assert_eq!(client.facts.queued_infantry, 11);
    assert_eq!(client.flows.len(), 3);
    assert!(client.flows.get(1).unwrap().attacking);
    assert!(!client.flows.get(3).unwrap().attacking);
    assert_eq!(client.active_fronts.len(), 1);
    assert_eq!(client.board.cells.len(), 5);
    assert!(client.board.non_capturable_cells.contains(Axial::new(5, 0)));
    assert_eq!(
        client.retask.active_strength_by_cell.get(Axial::new(2, 0)),
        Some(&9)
    );
    assert_eq!(
        client.retask.order_strength_by_cell.get(7, Axial::new(2, 0)),
        Some(4)
    );
    assert_eq!(client.retask.active_order_ids.to_vec(), vec![7, 8]);
}

#[test]
fn changed_rows_lead_where_a_full_reading_does() {
    let mut client = synchronized();
    let mut changes = TacticalChanges::new();
    changes.packets.insert(1, Some(packet(1, 7, 2, 3, 9)));
    changes.packets.insert(3, None);
    changes.packets.insert(4, Some(packet(4, 9, 1, 2, 2)));
    changes.orders.insert(8, None);
    changes.orders.insert(9, Some(order(9)));
    changes.sources.insert(1, None);
    let report = client.synchronize(
        FLOWS_DIRTY | ORDERS_DIRTY,
        AuthoritySnapshot {
            terrain: None,
            cells: None,
            absences: KeySet::new(),
            facts: no_facts(),
            tactical: None,
        },
        changes,
        &Vec::new(),
        None,
        CHUNK,
        MapViewMode::Overview,
    );
    assert_eq!(report.retask, RetaskChange::Touched);
    assert!(!report.player_changed);
    assert!(report.facts.subscriptions.is_empty());

    let mut fresh = RetaskBoard::new();
    fresh.rebuild_retask_indexes(&client.board.id_to_coordinate, &client.tactical, 1);
    for id in 1..=5 {
        let c = Axial::new(id, 0);
        assert_eq!(
            client.retask.active_strength_by_cell.get(c),
            fresh.active_strength_by_cell.get(c)
        );
        for order_id in [7, 8, 9] {
            assert_eq!(
                client.retask.order_strength_by_cell.get(order_id, c),
                fresh.order_strength_by_cell.get(order_id, c)
            );
            assert_eq!(
                client.retask.order_source_cells.contains(order_id, c),
                fresh.order_source_cells.contains(order_id, c)
            );
        }
    }
    assert_eq!(
        client.retask.active_order_ids.to_vec(),
        fresh.active_order_ids.to_vec()
    );
    assert_eq!(client.retask.active_order_ids.to_vec(), vec![7, 9]);
    assert_eq!(client.flows.get(1).unwrap().strength, 9);
    assert!(client.flows.get(3).is_none());
    assert_eq!(client.flows.get(2).unwrap().strength, 4);
    assert_eq!(client.facts.active_orders, 2);
    assert_eq!(client.facts.queued_infantry, 0);
}

#[test]
fn cells_that_are_no_longer_reported_are_neutral() {
    let mut client = synchronized();
    client.board.dirty_chunks = AxialSet::new();
    let mut absences = KeySet::new();
    absences.insert(3);
    let snapshot = |absences: KeySet| AuthoritySnapshot {
        terrain: None,
        cells: Some(vec![state(1, 1, 21), state(77, 1, 1)]),
        absences,
        facts: no_facts(),
        tactical: None,
    };
    let report = client.synchronize(
        CELLS_DIRTY,
        snapshot(absences),
        TacticalChanges::new(),
        &Vec::new(),
        None,
        CHUNK,
        MapViewMode::Overview,
    );
    let told = report.cells.unwrap();
    assert!(told.cell_state && told.planning && told.ownership);
    assert_eq!(report.retask, RetaskChange::Untouched);
    let gone = client.board.cells.get(Axial::new(3, 0)).unwrap();
    assert_eq!((gone.owner, gone.infantry, gone.civilians), (None, 0, 0));
    assert_eq!(gone.terrain, TerrainKind::Plains);
    assert_eq!(client.board.cells.get(Axial::new(1, 0)).unwrap().infantry, 21);
    assert_eq!(client.board.dirty_chunks.len(), 1);

    let mut again = KeySet::new();
    again.insert(3);
    let told = client
        .board
        .neutralize_absent_cells(CHUNK, &again, MapViewMode::Overview);
    assert!(told.cell_state && !told.planning && !told.ownership);
}

#[test]
fn only_what_a_mode_shows_is_drawn_again() {
    let mut board = board();
    board.dirty_chunks = AxialSet::new();
    let told = board.update_cells(CHUNK, &vec![state(1, 1, 25)], MapViewMode::Overview);
    assert!(told.cell_state && told.planning && !told.ownership);
    assert!(board.dirty_chunks.is_empty());
    board.update_cells(CHUNK, &vec![state(1, 1, 26)], MapViewMode::Soldiers);
    assert_eq!(board.dirty_chunks.to_vec(), vec![Axial::new(0, 0)]);
    assert_eq!(board.cells.get(Axial::new(1, 0)).unwrap().infantry, 26);
    assert!(board.cells.get(Axial::new(5, 0)).unwrap().blocked);
}

#[test]
fn new_terrain_alone_asks_for_a_full_reading() {
    let wanted = tables_to_read(ALL_DIRTY);
    assert!(wanted.terrain && wanted.all_cells && wanted.tactical && !wanted.changed_cells);
    let wanted = tables_to_read(CELLS_DIRTY | FRONTS_DIRTY);
    assert!(wanted.changed_cells && !wanted.tactical && !wanted.receipts);
}

#[test]
fn seats_are_read_off_the_rows() {
    let (states, local) = read_players(
        3,
        &vec![
            slot(3, None, false),
            slot(1, Some(ME), true),
            slot(9, Some(ME), true),
        ],
        Some(ME),
    );
    assert_eq!(read_players(1, &vec![slot(1, None, false)], None).1, None);
    assert_eq!(
        states,
        vec![ConnectionState::Connected, ConnectionState::Syncing, ConnectionState::Open]
    );
    assert_eq!(local, Some(1));
    assert_eq!(owner(0), None);
    assert_eq!(owner(4), Some(4));
    assert_eq!(
        spawn_cell(
            &vec![PlayerState { player_id: 2, controlled_cells: 0, spawn_cell_id: 9 }],
            2
        ),
        9
    );
    assert_eq!(spawn_cell(&Vec::new(), 2), 0);
}

#[test]
fn a_packet_without_a_route_goes_straight() {
    let cache = rows();
    assert_eq!(
        resolved_packet_route(&packet(1, 7, 1, 3, 6), &cache.routes),
        Some(vec![1, 3])
    );
    assert_eq!(
        resolved_packet_route(&packet(1, 7, 3, 3, 6), &cache.routes),
        Some(vec![3])
    );
    let mut routed = packet(1, 7, 1, 3, 6);
    routed.route_id = 4;
    routed.route_index = 1;
    let board = board();
    let flow = packet_to_flow(&board, &routed, &cache.routes, true).unwrap();
    assert_eq!(flow.route, vec![Axial::new(2, 0), Axial::new(3, 0)]);
    assert!(packet_to_flow(&board, &routed, &cache.routes, false).is_none());
    routed.route_index = 2;
    assert!(packet_to_flow(&board, &routed, &cache.routes, true).is_none());
    routed.route_id = 99;
    assert!(resolved_packet_route(&routed, &cache.routes).is_none());
}

#[test]
fn a_cell_is_contested_by_whom_presses_hardest() {
    let board = board();
    let mut fronts = Table::new();
    fronts.insert(1, front(1, 2, 3, 1, 9));
    fronts.insert(2, front(2, 4, 3, 3, 50));
    fronts.insert(3, front(3, 3, 1, 2, 0));
    assert_eq!(attacker_pressure(&front(1, 2, 3, 1, 9)), 11);
    let (seen, contested) = fronts_to_overlays(&board, &fronts, 1);
    assert_eq!(seen.len(), 3);
    assert_eq!(seen[0].friendly, Axial::new(2, 0));
    assert_eq!(seen[0].engaged, 4);
    assert_eq!(
        contested.get(Axial::new(3, 0)),
        Some(&ContestedCellView {
            controller_player: 2,
            attacker_player: 3,
            attacker_strength: 52,
            total_strength: 92,
        })
    );
    assert_eq!(
        contested.get(Axial::new(1, 0)).map(|contest| contest.attacker_strength),
        Some(2)
    );
}

#[test]
fn pressed_fronts_are_handles_of_the_orders_that_cross_them() {
    let board = board();
    let mut cache = rows();
    cache.packets.insert(5, packet(5, 8, 2, 3, 1));
    cache.rebuild_indexes();
    let mut retask = RetaskBoard::new();
    retask.rebuild_retask_indexes(&board.id_to_coordinate, &cache, 1);
    let here = Axial::new(3, 0);
    retask.rebuild_retask_handles(
        &board.id_to_coordinate,
        &cache,
        1,
        &AxialSet::from_slice(&[here]),
    );
    assert_eq!(retask.handle_orders.get(here).unwrap().to_vec(), vec![7, 8]);
    retask.rebuild_retask_handles(&board.id_to_coordinate, &cache, 1, &AxialSet::new());
    assert!(retask.handle_orders.get(here).is_none());
}

#[test]
fn amounts_and_counts_come_back_to_nothing() {
    let here = Axial::new(1, 1);
    let mut strengths = AxialMap::new();
    adjust_strength(&mut strengths, here, u64::MAX, true);
    adjust_strength(&mut strengths, here, 5, true);
    assert_eq!(strengths.get(here), Some(&u64::MAX));
    adjust_strength(&mut strengths, here, u64::MAX, false);
    assert!(strengths.is_empty());

    let mut orders = Strengths::new();
    orders.adjust(3, here, 4, true);
    orders.adjust(3, here, 1, false);
    assert_eq!(orders.get(3, here), Some(3));
    orders.adjust(3, here, 3, false);
    assert!(orders.order_ids().is_empty());

    let mut counts = Claims::new();
    let mut claims = CellSets::new();
    adjust_counted_set(&mut counts, &mut claims, 3, here, true);
    adjust_counted_set(&mut counts, &mut claims, 3, here, true);
    adjust_counted_set(&mut counts, &mut claims, 3, here, false);
    assert!(claims.contains(3, here));
    adjust_counted_set(&mut counts, &mut claims, 3, here, false);
    assert!(!claims.contains(3, here));
    assert!(claims.is_same(&CellSets::new()));

    let mut crossings = Crossings::new();
    crossings.adjust(1, 2, 9, true);
    crossings.adjust(1, 2, 4, true);
    assert_eq!(crossings.orders_over(1, 2), vec![4, 9]);
    assert!(crossings.orders_over(2, 1).is_empty());
    crossings.adjust(1, 2, 9, false);
    assert_eq!(crossings.orders_over(1, 2), vec![4]);
}

#[test]
fn changes_name_what_they_touch() {
    let cache = rows();
    let mut changes = TacticalChanges::new();
    let mut finished = order(7);
    finished.status = OrderStatus::Finished;
    assert!(flow_order_projection_changed(Some(order(7)), Some(finished)));
    let mut renumbered = order(7);
    renumbered.client_command_id = 99;
    assert!(!flow_order_projection_changed(Some(order(7)), Some(renumbered)));
    assert!(retask_order_projection_changed(Some(order(7)), Some(renumbered)));
    changes.orders.insert(7, Some(renumbered));
    let impact = ProjectionImpact::before(&cache, &changes);
    assert_eq!(impact.retask_packet_ids.to_vec(), vec![1, 2]);
    assert_eq!(impact.retask_source_keys.to_vec(), vec![1]);
    assert_eq!(impact.retask_destination_keys.to_vec(), vec![1]);
    assert!(impact.flow_packet_ids.is_empty());
    assert!(impact.retask_changed());
    assert!(!ProjectionImpact::before(&cache, &TacticalChanges::new()).retask_changed());
}

#[test]
fn indexes_follow_their_rows() {
    let mut index = Table::new();
    file_under(&mut index, 1, 10);
    file_under(&mut index, 1, 11);
    remove_index_value(&mut index, 1, 10);
    assert_eq!(index.get(1).unwrap().to_vec(), vec![11]);
    remove_index_value(&mut index, 1, 11);
    assert!(index.is_empty());

    let mut cache = rows();
    assert_eq!(cache.packet_ids_by_order.get(7).unwrap().to_vec(), vec![1, 2]);
    let mut changes = TacticalChanges::new();
    changes.packets.insert(1, None);
    changes.packets.insert(2, Some(packet(2, 8, 2, 3, 4)));
    cache.apply(changes);
    assert!(cache.packet_ids_by_order.get(7).is_none());
    assert_eq!(cache.packet_ids_by_order.get(8).unwrap().to_vec(), vec![2, 3]);
    assert_eq!(queued_infantry(&cache.sources), 11);
}

#[test]
fn a_lost_connection_takes_the_view_with_it() {
    let mut client = synchronized();
    let mut signals = Signals::new();
    signals.record_cell_absence(1);
    let current = client.session.active_generation;
    let effect = client.apply_lifecycle_event(
        &mut signals,
        LifecycleEvent::Disconnected { generation: current, reason: "gone".to_string() },
    );
    assert!(matches!(effect, LifecycleEffect::Lost { .. }));
    assert_eq!(client.facts.connection, vec![ConnectionState::Syncing; 2]);
    assert!(client.tactical.packets.is_empty());
    assert!(client.flows.is_empty());
    assert!(client.active_fronts.is_empty());
    assert!(client.contested_cells.is_empty());
    assert!(client.retask.active_strength_by_cell.is_empty());
    assert_eq!(client.board.cells.len(), 5);
    assert_eq!(signals.take_dirty(), 0);
    assert!(signals.take_cell_absences().is_empty());

    let mut client = synchronized();
    let generation = client.begin_connection(&mut signals);
    let effect = client.apply_lifecycle_event(
        &mut signals,
        LifecycleEvent::JoinFailed { generation, reason: "full".to_string() },
    );
    assert!(matches!(effect, LifecycleEffect::SlotUnavailable { .. }));
    assert!(client.flows.is_empty());

    let mut client = synchronized();
    client.disable_invalid_host();
    assert!(client.session.connection_disabled);
    assert!(client.flows.is_empty());
    assert_eq!(client.tactical.packets.len(), 3);
}

#[test]
fn seats_follow_the_size_of_the_match() {
    let seats = vec![ConnectionState::Open, ConnectionState::Connected];
    assert_eq!(resize(&seats, 1), vec![ConnectionState::Open]);
    assert_eq!(
        resize(&seats, 3),
        vec![ConnectionState::Open, ConnectionState::Connected, ConnectionState::Syncing]
    );
}

/// Rows that changed, and nothing else.
fn take_rows(client: &mut Client, changes: TacticalChanges) -> RetaskChange {
    let report = client.synchronize(
        FLOWS_DIRTY | ORDERS_DIRTY,
        AuthoritySnapshot {
            terrain: None,
            cells: None,
            absences: KeySet::new(),
            facts: no_facts(),
            tactical: None,
        },
        changes,
        &Vec::new(),
        None,
        CHUNK,
        MapViewMode::Overview,
    );
    client.retask.settle(report.retask, &report.previous);
    report.retask
}

#[test]
fn counts_outlive_a_view_that_was_cleared() {
    let mut client = synchronized();
    let here = Axial::new(3, 0);
    // Two packets and a destination claim the third cell for order 7.
    assert!(client.retask.destination_claims_by_order.contains(7, here));
    client.clear_tactical_presentation();
    assert!(!client.retask.destination_claims_by_order.contains(7, here));
    assert!(client.retask.active_strength_by_cell.is_empty());

    // A packet that is written again is counted down and up: the claim is back on
    // view, and stays there while others are counted.
    let mut changes = TacticalChanges::new();
    changes.packets.insert(1, Some(packet(1, 7, 2, 3, 9)));
    assert_eq!(take_rows(&mut client, changes), RetaskChange::Touched);
    assert!(client.retask.destination_claims_by_order.contains(7, here));
    let mut changes = TacticalChanges::new();
    changes.packets.insert(1, None);
    assert_eq!(take_rows(&mut client, changes), RetaskChange::Touched);
    assert!(client.retask.destination_claims_by_order.contains(7, here));
    // With the others it goes.
    let mut changes = TacticalChanges::new();
    changes.packets.insert(2, None);
    changes.destinations.insert(1, None);
    assert_eq!(take_rows(&mut client, changes), RetaskChange::Touched);
    assert!(!client.retask.destination_claims_by_order.contains(7, here));
}

#[test]
fn revisions_count_what_changes_on_view() {
    let mut client = synchronized();
    assert_eq!(client.retask.revision, 0);
    // A rebuilt board counts where it shows something else.
    client.retask.settle(RetaskChange::Rebuilt, &Some(RetaskBoard::new()));
    assert_eq!(client.retask.revision, 1);
    let previous =
        client.retask.rebuild_retask_indexes(&client.board.id_to_coordinate, &client.tactical, 1);
    assert!(client.retask.shows_as(&previous));
    client.retask.settle(RetaskChange::Rebuilt, &Some(previous));
    assert_eq!(client.retask.revision, 1);
    client.retask.settle(RetaskChange::Untouched, &None);
    assert_eq!(client.retask.revision, 1);
    client.retask.settle(RetaskChange::Touched, &None);
    assert_eq!(client.retask.revision, 2);
    // Clearing counts once.
    client.clear_tactical_presentation();
    assert_eq!(client.retask.revision, 3);
    client.clear_tactical_presentation();
    assert_eq!(client.retask.revision, 3);
    assert!(client.retask.shows_as(&RetaskBoard::new()));
}

#[test]
fn a_front_that_nobody_crosses_is_no_handle() {
    let board = board();
    let mut cache = rows();
    cache.packets.remove(1);
    cache.packets.remove(2);
    cache.packets.remove(3);
    cache.rebuild_indexes();
    let mut retask = RetaskBoard::new();
    retask.rebuild_retask_indexes(&board.id_to_coordinate, &cache, 1);
    let here = Axial::new(3, 0);
    retask.rebuild_retask_handles(
        &board.id_to_coordinate,
        &cache,
        1,
        &AxialSet::from_slice(&[here]),
    );
    assert!(retask.handle_orders.is_empty());
}

#[test]
fn kept_movements_are_shown_as_they_are() {
    let mut client = synchronized();
    let mut changes = TacticalChanges::new();
    changes.packets.insert(1, Some(packet(1, 7, 2, 3, 9)));
    take_rows(&mut client, changes);
    let all = replace_authoritative_flows(&client.board, &client.tactical);
    assert_eq!(client.flows.len(), all.len());
    for key in [1, 2, 3] {
        let kept = client.flows.get(key).unwrap();
        let anew = all.get(key).unwrap();
        assert_eq!(kept.strength, anew.strength);
        assert_eq!(kept.attacking, anew.attacking);
    }
}
