use hex_core::axials::{AxialMap, AxialSet};
use hex_core::commands::{
    session_command_floor, CommandBook, CommandReceipt, ReceiptStatus, ServerUpdate,
};
use hex_core::coord::Axial;
use hex_core::deltas::{
    CellState, LifecycleEvent, Signals, TableEvent, CELLS_DIRTY, FLOWS_DIRTY, PLAYERS_DIRTY,
};
use hex_core::dispatch::Dispatch;
use hex_core::host::{host_problem, parts_problem};
use hex_core::intents::{invoke_intent, ClientIntent, PendingCommand, ReducerCall};
use hex_core::interest::{
    bootstrap_subscription_queries, camera_interest, chunk_coords_for_axial,
    chunk_coords_for_cell_id, packet_query, route_query, spatial_cell_state_queries,
    spawn_interest, tactical_subscription_queries, SpatialInterest,
};
use hex_core::session::{LifecycleEffect, Session, SpatialHandles, Upkeep};
use hex_core::tactical::{OrderKind, OrderStatus, TransferOrder, TransitPacket};

fn receipt(key: u128, command_id: u64, name: &str, status: ReceiptStatus) -> CommandReceipt {
    CommandReceipt {
        receipt_key: key,
        player_id: 1,
        client_command_id: command_id,
        command_name: name.to_string(),
        status,
        order_id: 0,
        message: "no room".to_string(),
    }
}

/// A session that may give commands, from number 10 on.
fn ready_session() -> Session {
    let mut session = Session::new(10);
    let generation = session.begin_connection();
    session.apply_lifecycle_event(LifecycleEvent::BootstrapSubscribed { generation });
    assert!(session.bind(1));
    assert!(!session.bind(1));
    session.apply_lifecycle_event(LifecycleEvent::TacticalSubscribed { generation });
    session.book.seed_command_ids(1, &Vec::new());
    assert!(session.accepts_commands());
    session
}

#[test]
fn queries_name_the_player_in_a_large_match_only() {
    assert_eq!(
        bootstrap_subscription_queries(),
        vec![
            "SELECT * FROM cell_terrain",
            "SELECT * FROM match_config",
            "SELECT * FROM match_state",
            "SELECT * FROM player_slot",
            "SELECT * FROM player_state",
        ]
    );
    assert_eq!(packet_query(None), "SELECT * FROM transit_packet");
    assert_eq!(
        packet_query(Some(12)),
        "SELECT * FROM transit_packet WHERE owner_player_id = 12"
    );
    assert_eq!(
        route_query(Some(500)),
        "SELECT * FROM transit_route WHERE player_id = 500"
    );
    let small = tactical_subscription_queries(8, 3);
    assert_eq!(small.len(), 9);
    assert!(small.iter().all(|query| !query.contains("WHERE")));
    let large = tactical_subscription_queries(9, 3);
    assert_eq!(large.len(), 10);
    assert!(large.iter().all(|query| query.ends_with(" = 3")));
}

#[test]
fn interest_is_held_to_the_range_of_chunks() {
    assert_eq!(
        spatial_cell_state_queries(SpatialInterest {
            focus_chunk_q: -1,
            focus_chunk_r: 32_766,
            radius: 2,
        }),
        vec![
            "SELECT * FROM cell_state WHERE chunk_q >= -3 AND chunk_q <= 1 AND chunk_r >= 32764 AND chunk_r <= 32767",
        ]
    );
}

#[test]
fn chunks_round_down_and_guard_against_empty_sizes() {
    assert_eq!(chunk_coords_for_cell_id(33, 16, 8), (0, 0));
    assert_eq!(chunk_coords_for_cell_id(16 * 9 + 15, 16, 8), (1, 1));
    assert_eq!(chunk_coords_for_cell_id(5, 0, 0), (0, 5));
    assert_eq!(chunk_coords_for_axial(Axial::new(-1, 7), 0, 0, 8), (-1, 0));
    assert_eq!(chunk_coords_for_axial(Axial::new(40_000, 0), 0, 0, 1), (0, 0));
    assert_eq!(
        spawn_interest(16 * 9 + 15, Some((16, 8))).center(),
        (1, 1)
    );
    assert_eq!(spawn_interest(16 * 9 + 15, None).center(), (0, 0));
    let off_map = camera_interest(Axial::new(99, 99), false, Some(Axial::new(8, 0)), 0, 0, 8);
    assert_eq!(off_map.center(), (1, 0));
    assert_eq!(off_map.radius, 2);
}

#[test]
fn hosts_need_a_web_scheme_and_an_authority() {
    let expected = Some("expected an absolute http, https, ws, or wss URI".to_string());
    assert_eq!(host_problem("http://127.0.0.1:3000"), None);
    assert_eq!(host_problem("https://example.org"), None);
    assert_eq!(host_problem("wss://example.org/socket"), None);
    assert_eq!(host_problem("ftp://example.org"), expected);
    assert_eq!(host_problem("127.0.0.1:3000"), expected);
    assert_eq!(host_problem("/socket"), expected);
    assert_eq!(host_problem("no host at all"), Some("invalid uri character".to_string()));
    assert_eq!(parts_problem(Ok((Some("ws".to_string()), true))), None);
    assert_eq!(parts_problem(Ok((Some("ws".to_string()), false))), expected);
    assert_eq!(
        parts_problem(Err("empty".to_string())),
        Some("empty".to_string())
    );
}

#[test]
fn a_connection_is_kept_up() {
    let mut session = Session::new(1);
    assert_eq!(session.maintain_connection(true, false, true), Upkeep::Rest);
    assert_eq!(session.maintain_connection(false, true, true), Upkeep::Poll);
    assert_eq!(session.maintain_connection(false, false, false), Upkeep::Wait);
    assert_eq!(session.maintain_connection(false, false, true), Upkeep::Connect);
    session.disable();
    assert_eq!(session.maintain_connection(false, false, true), Upkeep::Rest);
}

#[test]
fn delays_double_up_to_eight_seconds() {
    let mut session = Session::new(1);
    let delays = (0..6)
        .map(|_| {
            session.schedule_reconnect();
            session.reconnect_half_seconds
        })
        .collect::<Vec<_>>();
    assert_eq!(delays, vec![1, 2, 4, 8, 16, 16]);
}

#[test]
fn the_lobby_alone_unlocks_nothing() {
    let mut session = Session::new(1);
    let generation = session.begin_connection();
    let effect =
        session.apply_lifecycle_event(LifecycleEvent::BootstrapSubscribed { generation });
    assert!(matches!(effect, LifecycleEffect::Connecting { .. }));
    assert!(!session.accepts_commands());
    let outcome = session.dispatch(
        true,
        &AxialMap::new(),
        ClientIntent::SetMobilization { target_bps: 100 },
        "waiting".to_string(),
    );
    assert!(matches!(
        outcome,
        Dispatch::Refused { update: ServerUpdate::Rejected { command_id: None, reason } }
            if reason == "waiting"
    ));
}

#[test]
fn a_loss_counts_once_and_answers_what_the_player_waits_for() {
    let mut session = ready_session();
    let generation = session.active_generation;
    assert!(session.note_call(10, PendingCommand::PushFront, None).is_none());
    assert!(session
        .note_call(11, PendingCommand::Mobilization { target_bps: 10 }, None)
        .is_none());
    let lost = session.apply_lifecycle_event(LifecycleEvent::Disconnected {
        generation,
        reason: "gone".to_string(),
    });
    match lost {
        LifecycleEffect::Lost { log, updates } => {
            assert_eq!(log, "Disconnected: gone");
            assert_eq!(updates.len(), 1);
            assert!(matches!(
                &updates[0],
                ServerUpdate::Rejected { command_id: Some(10), reason }
                    if reason.ends_with(
                        " outcome is unknown after connection loss; retry after reconnect"
                    )
            ));
        }
        other => panic!("unexpected effect {other:?}"),
    }
    assert!(!session.accepts_commands());
    assert_eq!(session.bound_player, None);
    assert_eq!(session.reconnect_half_seconds, 1);
    let again = session.apply_lifecycle_event(LifecycleEvent::ConnectionFailed {
        generation,
        reason: "late".to_string(),
    });
    assert!(matches!(again, LifecycleEffect::Ignored));
    assert_eq!(session.reconnect_half_seconds, 1);
}

#[test]
fn events_of_an_earlier_connection_change_nothing() {
    let mut session = Session::new(1);
    let earlier = session.begin_connection();
    let current = session.begin_connection();
    assert_ne!(earlier, current);
    for event in [
        LifecycleEvent::Connected { generation: earlier },
        LifecycleEvent::BootstrapSubscribed { generation: earlier },
        LifecycleEvent::TacticalSubscribed { generation: earlier },
        LifecycleEvent::JoinFailed { generation: earlier, reason: "full".to_string() },
        LifecycleEvent::Disconnected { generation: earlier, reason: "gone".to_string() },
        LifecycleEvent::TokenWarning { generation: earlier, message: "old".to_string() },
    ] {
        assert!(matches!(
            session.apply_lifecycle_event(event),
            LifecycleEffect::Ignored
        ));
    }
    assert!(session.lifecycle_is_current(current));
    assert!(!session.subscription_lifecycle.bootstrap_ready);
    let refused = session.apply_lifecycle_event(LifecycleEvent::JoinFailed {
        generation: current,
        reason: "full".to_string(),
    });
    assert!(matches!(
        refused,
        LifecycleEffect::SlotUnavailable { reason } if reason == "full"
    ));
}

#[test]
fn commands_are_numbered_and_answered_once() {
    let mut session = ready_session();
    let mut ids = AxialMap::new();
    ids.insert(Axial::new(0, 0), 4);
    ids.insert(Axial::new(1, 0), 7);
    let intent = |c: Axial| ClientIntent::ExpandClusters {
        sources: AxialSet::from_slice(&[Axial::new(1, 0), Axial::new(0, 0)]),
        focus: c,
        commitment_percent: 30,
    };
    match session.dispatch(true, &ids, intent(Axial::new(1, 0)), String::new()) {
        Dispatch::Call { command_id, started, call, kind } => {
            assert_eq!((command_id, started), (10, true));
            assert!(matches!(
                call,
                ReducerCall::IssueExpandClusters { ref sources, focus: 7, commitment_bps: 3000 }
                    if *sources == vec![4, 7]
            ));
            session.note_call(command_id, kind, None);
        }
        other => panic!("unexpected outcome {other:?}"),
    }
    let off_map = session.dispatch(true, &ids, intent(Axial::new(5, 5)), String::new());
    assert!(matches!(
        off_map,
        Dispatch::Unsendable { command_id: 11, started: true, update: ServerUpdate::Rejected { command_id: Some(11), .. } }
    ));

    let name = PendingCommand::ExpandClusters.receipt_name();
    let mut accepted = receipt(1, 10, name, ReceiptStatus::Accepted);
    accepted.order_id = 42;
    let again = receipt(1, 10, name, ReceiptStatus::Accepted);
    let updates = session.book.process_receipts(1, vec![accepted, again]);
    assert_eq!(updates.len(), 1);
    let label = PendingCommand::ExpandClusters.label();
    assert!(matches!(
        &updates[0],
        ServerUpdate::Accepted { command_id: 10, summary }
            if *summary == format!("{label} accepted · order #42")
    ));
    assert!(session.book.pending.is_empty());
}

#[test]
fn a_receipt_under_another_name_is_a_collision() {
    let mut book = CommandBook::new(5);
    assert_eq!(book.allocate_command_id(), Some(5));
    book.submit(5, PendingCommand::PushFront);
    book.submit(6, PendingCommand::Mobilization { target_bps: 2500 });
    book.submit(7, PendingCommand::Reshape);
    let other = PendingCommand::Reshape.receipt_name();
    let updates = book.process_receipts(
        1,
        vec![
            receipt(1, 5, other, ReceiptStatus::Accepted),
            receipt(
                2,
                6,
                PendingCommand::Mobilization { target_bps: 0 }.receipt_name(),
                ReceiptStatus::Accepted,
            ),
            receipt(3, 7, other, ReceiptStatus::Rejected),
        ],
    );
    assert!(matches!(
        &updates[0],
        ServerUpdate::Rejected { command_id: Some(5), reason }
            if reason.starts_with("Command ID collision: expected ")
    ));
    assert!(matches!(
        updates[1],
        ServerUpdate::MobilizationChanged { command_id: 6, target_bps: 2500 }
    ));
    assert!(matches!(
        &updates[2],
        ServerUpdate::Rejected { command_id: Some(7), reason } if reason == "no room"
    ));
    assert_eq!(book.allocate_command_id(), Some(8));
}

#[test]
fn the_last_number_ends_the_numbers() {
    let mut book = CommandBook::new(5);
    book.observe_command_id(u64::MAX);
    assert_eq!(book.allocate_command_id(), None);
    assert!(!book.command_ids_ready);
    assert_eq!(session_command_floor(1, 0x12_3456), (1 << 20) | 0x2_3456);
    assert_eq!(session_command_floor(u128::MAX, 0), 0xffff_ffff_fff0_0000);
}

#[test]
fn without_a_connection_nothing_is_planned() {
    let plan = invoke_intent(
        false,
        &AxialMap::new(),
        ClientIntent::CancelOrders { order_ids: vec![1] },
    );
    assert!(matches!(plan, Err(reason) if reason == "SpacetimeDB connection is unavailable"));
}

#[test]
fn a_seat_is_subscribed_once() {
    let mut session = ready_session();
    let wanted = session.ensure_tactical_subscriptions(true, 9, 1, 16 * 9 + 15, Some((16, 8)));
    let (queries, around) = wanted.unwrap();
    assert_eq!(queries.len(), 10);
    assert_eq!(around.unwrap().len(), 1);
    assert!(session
        .ensure_tactical_subscriptions(true, 9, 1, 16 * 9 + 15, Some((16, 8)))
        .is_none());
    assert!(!session.accepts_commands());

    let generation = session.active_generation;
    session.apply_lifecycle_event(LifecycleEvent::TacticalSubscribed { generation });
    let here = SpatialInterest { focus_chunk_q: 1, focus_chunk_r: 1, radius: 2 };
    let there = SpatialInterest { focus_chunk_q: 2, focus_chunk_r: 1, radius: 2 };
    assert!(session.follow_camera(true, 9, Some(here)).is_none());
    assert!(session.follow_camera(true, 8, Some(there)).is_none());
    assert_eq!(session.follow_camera(true, 9, Some(there)).unwrap().len(), 1);
}

#[test]
fn a_subscription_goes_when_its_successor_is_active() {
    let mut handles = SpatialHandles::new();
    assert_eq!(handles.install(1), None);
    assert_eq!(handles.install(2), None);
    assert_eq!(handles.finish_retiring(false), None);
    assert_eq!(handles.install(3), Some(1));
    assert_eq!(handles.finish_retiring(true), Some(2));
    assert_eq!(handles.finish_retiring(true), None);
}

#[test]
fn the_last_word_on_a_cell_counts() {
    let cell = |infantry: u64| CellState {
        cell_id: 3,
        owner_player_id: 1,
        civilians: 0,
        infantry,
        military_capacity: 10,
    };
    let mut signals = Signals::new();
    signals.record_cell(cell(1));
    signals.record_cell(cell(2));
    signals.record_cell_absence(4);
    signals.record_cell_absence(3);
    signals.record_cell(cell(5));
    signals.observe(TableEvent::PlayerSlot);
    signals.observe(TableEvent::PacketGone { packet_key: 8 });
    signals.push(LifecycleEvent::Connected { generation: 1 });

    assert_eq!(signals.take_dirty(), CELLS_DIRTY | PLAYERS_DIRTY | FLOWS_DIRTY);
    assert_eq!(signals.take_dirty(), 0);
    let changes = signals.take_cell_changes();
    assert_eq!(changes.len(), 1);
    assert_eq!(changes[0].infantry, 5);
    assert_eq!(signals.take_cell_absences().to_vec(), vec![4]);
    assert_eq!(signals.take_tactical_changes().packets.len(), 1);
    assert_eq!(signals.drain().len(), 1);
    assert!(signals.drain().is_empty());

    signals.observe(TableEvent::PacketWritten {
        row: TransitPacket {
            packet_key: 8,
            order_id: 1,
            route_id: 0,
            owner_player_id: 1,
            current_cell: 1,
            destination_cell: 2,
            route_index: 0,
            infantry: 5,
        },
    });
    signals.clear_pending_deltas();
    assert_eq!(signals.take_dirty(), 0);
    assert!(signals.take_tactical_changes().packets.is_empty());
}

#[test]
fn an_order_that_is_finished_counts_as_gone() {
    let order = |status: OrderStatus| TransferOrder {
        order_id: 6,
        player_id: 1,
        status,
        kind: OrderKind::Reshape,
        client_command_id: 2,
    };
    let mut signals = Signals::new();
    signals.observe(TableEvent::OrderWritten { row: order(OrderStatus::Active) });
    signals.observe(TableEvent::OrderWritten { row: order(OrderStatus::Finished) });
    let changes = signals.take_tactical_changes();
    assert_eq!(changes.orders.get(6), Some(&None));
    signals.observe(TableEvent::OrderWritten { row: order(OrderStatus::Active) });
    let changes = signals.take_tactical_changes();
    assert_eq!(changes.orders.get(6), Some(&Some(order(OrderStatus::Active))));
}
