use hex_core::axials::AxialMap;
use hex_core::coord::Axial;
use hex_core::map::{Cell, ForceComposition, HexMap};
use hex_core::redistribution::{
    redistribution_targets_dense_with_weights, DistributionError, UNIFORM_ALLOCATION_WEIGHT,
};
use std::collections::BTreeMap;

#[derive(Debug, PartialEq)]
struct Targets {
    targets: BTreeMap<Axial, u64>,
    assigned: u64,
    unassigned: u64,
}

fn filed<V: Copy>(map: BTreeMap<Axial, V>) -> AxialMap<V> {
    let mut filed = AxialMap::new();
    for (coordinate, value) in map {
        filed.insert(coordinate, value);
    }
    filed
}

fn redistribution_targets_with_fallback_constraints(
    map: &HexMap,
    owner: u32,
    weights: BTreeMap<Axial, u32>,
    lower_bounds: BTreeMap<Axial, u64>,
    total_strength: u64,
) -> Result<Targets, DistributionError> {
    hex_core::redistribution::redistribution_targets_with_fallback_constraints(
        map,
        owner,
        filed(weights),
        filed(lower_bounds),
        total_strength,
    )
    .map(|result| Targets {
        targets: result
            .targets
            .keys()
            .into_iter()
            .map(|key| (key, *result.targets.get(key).unwrap()))
            .collect(),
        assigned: result.assigned,
        unassigned: result.unassigned,
    })
}

fn line(capacities: &[u64]) -> HexMap {
    let mut map = HexMap::new();
    for (q, &capacity) in capacities.iter().enumerate() {
        map.insert(Cell::ground(Axial::new(q as i32, 0), 0, Some(1), capacity));
    }
    map
}

fn occupied_line(capacities: &[u64], strengths: &[u64]) -> HexMap {
    assert_eq!(capacities.len(), strengths.len());
    let mut map = line(capacities);
    for (q, &strength) in strengths.iter().enumerate() {
        map.get_mut(Axial::new(q as i32, 0))
            .expect("line cell")
            .forces = ForceComposition::infantry(strength);
    }
    map
}

#[test]
fn dense_weighted_targets_equalize_by_capacity_when_weights_match() {
    let coordinates = [Axial::new(0, 0), Axial::new(1, 0)];
    let capacities = [100_u64, 200];
    let result = redistribution_targets_dense_with_weights(
        &coordinates,
        &capacities,
        150,
        vec![UNIFORM_ALLOCATION_WEIGHT, UNIFORM_ALLOCATION_WEIGHT],
    )
    .unwrap();
    assert_eq!(result.targets, vec![50, 100]);
    assert_eq!(result.assigned, 150);
    assert_eq!(result.unassigned, 0);
}

#[test]
fn dense_weighted_targets_respect_capacity_and_weight_bias() {
    let coordinates = [Axial::new(0, 0), Axial::new(1, 0), Axial::new(2, 0)];
    let capacities = [100_u64, 100, 100];
    let result = redistribution_targets_dense_with_weights(
        &coordinates,
        &capacities,
        150,
        vec![1, 2, 3],
    )
    .unwrap();
    assert_eq!(result.targets, vec![25, 50, 75]);
    assert_eq!(result.assigned, 150);
}

#[test]
fn fallback_constraints_drain_sources_when_the_drawn_shape_fits() {
    let map = occupied_line(&[100, 100, 100], &[45, 45, 0]);
    let source_a = Axial::new(0, 0);
    let source_b = Axial::new(1, 0);
    let target = Axial::new(2, 0);

    let result = redistribution_targets_with_fallback_constraints(
        &map,
        1,
        BTreeMap::from([
            (source_a, 0),
            (source_b, 0),
            (target, UNIFORM_ALLOCATION_WEIGHT),
        ]),
        BTreeMap::from([(source_a, 0), (source_b, 0), (target, 0)]),
        90,
    )
    .unwrap();

    assert_eq!(result.targets[&source_a], 0);
    assert_eq!(result.targets[&source_b], 0);
    assert_eq!(result.targets[&target], 90);
    assert_eq!(result.assigned, 90);
    assert_eq!(result.unassigned, 0);
}

#[test]
fn fallback_constraints_saturate_the_shape_then_conserve_overflow_on_sources() {
    let map = occupied_line(&[100, 60, 50], &[80, 40, 0]);
    let source_a = Axial::new(0, 0);
    let source_b = Axial::new(1, 0);
    let target = Axial::new(2, 0);

    let result = redistribution_targets_with_fallback_constraints(
        &map,
        1,
        BTreeMap::from([
            (source_a, 0),
            (source_b, 0),
            (target, UNIFORM_ALLOCATION_WEIGHT),
        ]),
        BTreeMap::from([(source_a, 0), (source_b, 0), (target, 0)]),
        120,
    )
    .unwrap();

    assert_eq!(result.targets[&target], 50);
    assert_eq!(result.targets[&source_a], 47);
    assert_eq!(result.targets[&source_b], 23);
    assert!(result.targets[&source_a] <= 80);
    assert!(result.targets[&source_b] <= 40);
    assert_eq!(result.targets.values().sum::<u64>(), 120);
    assert!(
        result.targets.iter().all(|(coordinate, strength)| *strength
            <= map.get(*coordinate).unwrap().military_capacity)
    );
}

#[test]
fn fallback_constraints_preserve_frozen_strength_during_overflow() {
    let map = occupied_line(&[100, 100, 20], &[60, 20, 0]);
    let source_a = Axial::new(0, 0);
    let source_b = Axial::new(1, 0);
    let target = Axial::new(2, 0);

    let result = redistribution_targets_with_fallback_constraints(
        &map,
        1,
        BTreeMap::from([
            (source_a, 0),
            (source_b, 0),
            (target, UNIFORM_ALLOCATION_WEIGHT),
        ]),
        BTreeMap::from([(source_a, 45), (source_b, 0), (target, 0)]),
        80,
    )
    .unwrap();

    assert_eq!(result.targets[&target], 20);
    assert!(result.targets[&source_a] >= 45);
    assert_eq!(result.targets.values().sum::<u64>(), 80);
}

#[test]
fn fallback_constraints_reject_only_when_all_capacity_is_insufficient() {
    let map = occupied_line(&[20, 20], &[20, 0]);
    let source = Axial::new(0, 0);
    let target = Axial::new(1, 0);

    assert_eq!(
        redistribution_targets_with_fallback_constraints(
            &map,
            1,
            BTreeMap::from([(source, 0), (target, UNIFORM_ALLOCATION_WEIGHT)]),
            BTreeMap::from([(source, 0), (target, 0)]),
            50,
        ),
        Err(DistributionError::InsufficientTargetCapacity { unassigned: 10 })
    );
}

#[test]
fn fallback_constraints_exhaustively_preserve_strength_and_prefer_the_shape() {
    let source_a = Axial::new(0, 0);
    let source_b = Axial::new(1, 0);
    let target = Axial::new(2, 0);
    for strength_a in 0..=12 {
        for strength_b in 0..=12 {
            for target_capacity in 0..=30 {
                let total = strength_a + strength_b;
                let map = occupied_line(
                    &[strength_a + 7, strength_b + 11, target_capacity],
                    &[strength_a, strength_b, 0],
                );
                let result = redistribution_targets_with_fallback_constraints(
                    &map,
                    1,
                    BTreeMap::from([
                        (source_a, 0),
                        (source_b, 0),
                        (target, UNIFORM_ALLOCATION_WEIGHT),
                    ]),
                    BTreeMap::from([(source_a, 0), (source_b, 0), (target, 0)]),
                    total,
                )
                .unwrap();

                assert_eq!(result.targets.values().sum::<u64>(), total);
                assert_eq!(result.targets[&target], total.min(target_capacity));
                assert!(result.targets[&source_a] <= strength_a);
                assert!(result.targets[&source_b] <= strength_b);
                assert_eq!(result.assigned, total);
                assert_eq!(result.unassigned, 0);
            }
        }
    }
}

#[test]
fn targets_can_be_copied() {
    let map = occupied_line(&[20, 40], &[20, 0]);
    let source = Axial::new(0, 0);
    let target = Axial::new(1, 0);
    let made = hex_core::redistribution::redistribution_targets_with_fallback_constraints(
        &map,
        1,
        filed(BTreeMap::from([(source, 0), (target, UNIFORM_ALLOCATION_WEIGHT)])),
        filed(BTreeMap::from([(source, 0), (target, 0)])),
        20,
    )
    .unwrap();
    let copy = made.clone();
    assert_eq!(copy, made);
    assert_eq!(copy.targets.get(target), Some(&20));
}
