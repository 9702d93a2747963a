use hex_core::coord::Axial;
use hex_core::map::{
    Cell, EdgeLimits, ForceComposition, HexMap, LogisticsConfig, MovementConfig,
};
use hex_core::movement::{movement_step, MovementError, MovementIntent, MovementLimit};
use hex_core::transfer::{plan_transfer, TransferRequest};

fn owned_line(length: i32, capacity: u64) -> HexMap {
    let mut map = HexMap::new();
    for q in 0..length {
        map.insert(Cell::ground(Axial::new(q, 0), 0, Some(1), capacity));
    }
    map
}

fn intent(id: u64, from: i32, to: i32, requested: u64) -> MovementIntent {
    MovementIntent {
        id,
        priority: 0,
        owner: 1,
        from: Axial::new(from, 0),
        to: Axial::new(to, 0),
        requested,
    }
}

#[test]
fn planner_distributes_to_capacity_without_mutating_strength() {
    let mut map = owned_line(4, 100);
    map.get_mut(Axial::new(0, 0)).unwrap().forces = ForceComposition::infantry(70);
    map.get_mut(Axial::new(1, 0)).unwrap().forces = ForceComposition::infantry(50);
    map.get_mut(Axial::new(3, 0)).unwrap().forces = ForceComposition::infantry(80);
    let before = map.clone();
    let plan = plan_transfer(
        &map,
        &TransferRequest {
            owner: 1,
            sources: vec![Axial::new(1, 0), Axial::new(0, 0)],
            destinations: vec![Axial::new(3, 0), Axial::new(2, 0)],
            amount: 110,
        },
        &MovementConfig::default(),
    )
    .unwrap();
    assert_eq!(plan.planned, 110);
    assert_eq!(plan.unplanned, 0);
    assert_eq!(plan.legs.iter().map(|leg| leg.amount).sum::<u64>(), 110);
    assert_eq!(map, before);
}

#[test]
fn planner_reports_components_separated_by_a_cliff() {
    let mut map = owned_line(3, 100);
    map.get_mut(Axial::new(0, 0)).unwrap().forces = ForceComposition::infantry(50);
    map.get_mut(Axial::new(1, 0)).unwrap().elevation = 2;
    let plan = plan_transfer(
        &map,
        &TransferRequest {
            owner: 1,
            sources: vec![Axial::new(0, 0)],
            destinations: vec![Axial::new(2, 0)],
            amount: 50,
        },
        &MovementConfig::default(),
    )
    .unwrap();
    assert_eq!(plan.planned, 0);
    assert_eq!(plan.unreachable_sources, vec![Axial::new(0, 0)]);
    assert_eq!(plan.unreachable_destinations, vec![Axial::new(2, 0)]);
}

#[test]
fn movement_obeys_shared_edge_throughput_and_capacity() {
    let mut map = owned_line(2, 100);
    map.get_mut(Axial::new(0, 0)).unwrap().forces = ForceComposition::infantry(100);
    map.get_mut(Axial::new(1, 0)).unwrap().forces = ForceComposition::infantry(90);
    map.set_edge_limits(
        Axial::new(0, 0),
        Axial::new(1, 0),
        EdgeLimits {
            throughput: 20,
            frontage: 25,
        },
    );
    let result = movement_step(
        &mut map,
        &[intent(1, 0, 1, 50)],
        &MovementConfig::default(),
        &LogisticsConfig::default(),
    )
    .unwrap();
    assert_eq!(result.outcomes[&1].approved, 10);
    assert!(
        result.outcomes[&1]
            .limits
            .contains(&MovementLimit::DestinationCapacity)
    );
    assert_eq!(map.get(Axial::new(0, 0)).unwrap().force(), 90);
    assert_eq!(map.get(Axial::new(1, 0)).unwrap().force(), 100);
    assert_eq!(result.strength_before, result.strength_after);
}

#[test]
fn full_cells_can_advance_as_a_pipeline() {
    let mut map = owned_line(3, 100);
    map.get_mut(Axial::new(0, 0)).unwrap().forces = ForceComposition::infantry(100);
    map.get_mut(Axial::new(1, 0)).unwrap().forces = ForceComposition::infantry(100);
    map.get_mut(Axial::new(2, 0)).unwrap().forces = ForceComposition::infantry(80);
    let result = movement_step(
        &mut map,
        &[intent(1, 0, 1, 20), intent(2, 1, 2, 20)],
        &MovementConfig::default(),
        &LogisticsConfig::default(),
    )
    .unwrap();
    assert_eq!(result.outcomes[&1].approved, 20);
    assert_eq!(result.outcomes[&2].approved, 20);
    assert_eq!(map.get(Axial::new(0, 0)).unwrap().force(), 80);
    assert_eq!(map.get(Axial::new(1, 0)).unwrap().force(), 100);
    assert_eq!(map.get(Axial::new(2, 0)).unwrap().force(), 100);
}

#[test]
fn downstream_blockage_propagates_backpressure_upstream() {
    let mut map = owned_line(3, 100);
    for q in 0..3 {
        map.get_mut(Axial::new(q, 0)).unwrap().forces = ForceComposition::infantry(100);
    }
    let result = movement_step(
        &mut map,
        &[intent(1, 0, 1, 20), intent(2, 1, 2, 20)],
        &MovementConfig::default(),
        &LogisticsConfig::default(),
    )
    .unwrap();
    assert_eq!(result.outcomes[&1].approved, 0);
    assert_eq!(result.outcomes[&2].approved, 0);
    assert_eq!(map.total_force(), 300);
}

#[test]
fn service_is_deterministic_under_input_permutation() {
    let setup = || {
        let mut map = HexMap::new();
        for coordinate in [Axial::new(-1, 0), Axial::new(0, 0), Axial::new(1, 0)] {
            map.insert(Cell::ground(coordinate, 0, Some(1), 100));
        }
        map.get_mut(Axial::new(-1, 0)).unwrap().forces = ForceComposition::infantry(50);
        map.get_mut(Axial::new(1, 0)).unwrap().forces = ForceComposition::infantry(50);
        map
    };
    let left = MovementIntent {
        id: 2,
        priority: 0,
        owner: 1,
        from: Axial::new(-1, 0),
        to: Axial::new(0, 0),
        requested: 50,
    };
    let right = MovementIntent {
        id: 1,
        priority: 0,
        owner: 1,
        from: Axial::new(1, 0),
        to: Axial::new(0, 0),
        requested: 50,
    };
    let mut first_map = setup();
    let first = movement_step(
        &mut first_map,
        &[left, right],
        &MovementConfig::default(),
        &LogisticsConfig::default(),
    );
    let mut second_map = setup();
    let second = movement_step(
        &mut second_map,
        &[right, left],
        &MovementConfig::default(),
        &LogisticsConfig::default(),
    );
    assert_eq!(first, second);
    assert_eq!(first_map, second_map);
}

#[test]
fn generated_steps_preserve_capacity_and_total_strength() {
    // A tiny deterministic LCG supplies broad state coverage without making
    // authoritative code or tests depend on an RNG crate.
    let mut state = 0x4d59_5df4_d0f3_3173_u64;
    let mut next = || {
        state = state
            .wrapping_mul(6_364_136_223_846_793_005)
            .wrapping_add(1_442_695_040_888_963_407);
        state
    };

    for _case in 0..200 {
        let mut map = owned_line(4, 100);
        for q in 0..4 {
            map.get_mut(Axial::new(q, 0)).unwrap().forces =
                ForceComposition::infantry(next() % 101);
        }
        let before = map.total_force();
        let intents = [
            intent(1, 0, 1, next() % 80),
            intent(2, 1, 2, next() % 80),
            intent(3, 2, 3, next() % 80),
            intent(4, 3, 2, next() % 80),
        ];
        let step = movement_step(
            &mut map,
            &intents,
            &MovementConfig::default(),
            &LogisticsConfig::default(),
        )
        .unwrap();
        assert_eq!(step.strength_before, before);
        assert_eq!(step.strength_after, before);
        assert!(
            map.cells()
                .iter()
                .all(|cell| cell.force() <= cell.military_capacity)
        );
    }
}

#[test]
fn duplicate_ids_fail_without_mutating_the_map() {
    let mut map = owned_line(2, 100);
    map.get_mut(Axial::new(0, 0)).unwrap().forces = ForceComposition::infantry(50);
    let before = map.clone();
    let duplicate = intent(1, 0, 1, 10);
    assert_eq!(
        movement_step(
            &mut map,
            &[duplicate, duplicate],
            &MovementConfig::default(),
            &LogisticsConfig::default()
        ),
        Err(MovementError::DuplicateIntentId(1))
    );
    assert_eq!(map, before);
}
