use hex_core::combat::{
    resolve_edge_combat, select_capture, AttackFront, AttackOutcome, CombatConfig, CombatError,
    CombatResolution, FrontRejection,
};
use hex_core::coord::Axial;
use hex_core::map::PlayerId;
use std::collections::BTreeMap;

fn front(id: u64, from: Axial, elevation: i16, offered: u64) -> AttackFront {
    owned_front(id, 1, from, elevation, offered)
}

fn owned_front(
    id: u64,
    attacker: PlayerId,
    from: Axial,
    elevation: i16,
    offered: u64,
) -> AttackFront {
    AttackFront {
        id,
        attacker,
        from,
        from_elevation: elevation,
        offered,
        frontage: 25,
    }
}

fn resolution_conserves(resolution: &CombatResolution, attacks: &[AttackFront]) {
    assert_eq!(
        resolution.defender_initial,
        resolution.defender_remaining + resolution.defender_casualties
    );
    for attack in attacks {
        if let Some(outcome) = resolution.attacks.get(&attack.id) {
            assert_eq!(outcome.offered, attack.offered);
            assert_eq!(
                outcome.attacker_remaining + outcome.attacker_casualties,
                outcome.offered
            );
        }
    }
}

#[test]
fn defenders_are_never_duplicated_across_multiple_edges() {
    let attacks = [
        front(1, Axial::new(1, 0), 0, 25),
        front(2, Axial::new(0, 1), 0, 25),
        front(3, Axial::new(-1, 1), 0, 25),
    ];
    let result =
        resolve_edge_combat(Axial::new(0, 0), 60, 0, &attacks, &CombatConfig::default()).unwrap();
    assert_eq!(
        result
            .attacks
            .values()
            .map(|outcome| outcome.defense_allocated)
            .sum::<u64>(),
        60
    );
    assert_eq!(result.defender_casualties, 60);
    assert_eq!(result.capturing_owner, Some(1));
    assert_eq!(result.capturing_front, Some(1));
    resolution_conserves(&result, &attacks);
}

#[test]
fn uphill_attack_penalty_reduces_defender_casualties() {
    let flat = resolve_edge_combat(
        Axial::new(0, 0),
        20,
        0,
        &[front(1, Axial::new(1, 0), 0, 20)],
        &CombatConfig::default(),
    )
    .unwrap();
    let uphill = resolve_edge_combat(
        Axial::new(0, 0),
        20,
        1,
        &[front(1, Axial::new(1, 0), 0, 20)],
        &CombatConfig::default(),
    )
    .unwrap();
    assert_eq!(flat.defender_casualties, 20);
    assert_eq!(uphill.defender_casualties, 15);
}

#[test]
fn frontage_leaves_excess_attackers_waiting() {
    let result = resolve_edge_combat(
        Axial::new(0, 0),
        10,
        0,
        &[front(7, Axial::new(1, 0), 0, 100)],
        &CombatConfig::default(),
    )
    .unwrap();
    let outcome = result.attacks[&7];
    assert_eq!(outcome.engaged, 25);
    assert_eq!(outcome.waiting, 75);
    assert_eq!(outcome.attacker_remaining, 90);
}

#[test]
fn resolution_is_independent_of_attack_slice_order() {
    let a = front(30, Axial::new(1, 0), 0, 17);
    let b = front(10, Axial::new(0, 1), 0, 23);
    let c = front(20, Axial::new(-1, 1), 0, 11);
    let first = resolve_edge_combat(Axial::new(0, 0), 31, 0, &[a, b, c], &CombatConfig::default());
    let second = resolve_edge_combat(Axial::new(0, 0), 31, 0, &[c, a, b], &CombatConfig::default());
    assert_eq!(first, second);
}

#[test]
fn invalid_fronts_are_rejected_individually_while_valid_fronts_resolve() {
    let valid = front(1, Axial::new(1, 0), 0, 20);
    let non_adjacent = front(2, Axial::new(2, 0), 0, 5);
    let cliff = front(3, Axial::new(0, 1), -2, 5);
    let result = resolve_edge_combat(
        Axial::new(0, 0),
        20,
        0,
        &[non_adjacent, valid, cliff],
        &CombatConfig::default(),
    )
    .unwrap();
    assert_eq!(result.attacks.len(), 1);
    assert!(result.attacks.contains_key(&1));
    assert_eq!(
        result
            .rejected
            .iter()
            .map(|rejection| (rejection.id, rejection.reason))
            .collect::<Vec<_>>(),
        vec![
            (2, FrontRejection::NonAdjacent),
            (3, FrontRejection::ImpassableCliff),
        ]
    );
    // The valid front still fought the full defender.
    assert_eq!(result.attacks[&1].defense_allocated, 20);
}

#[test]
fn every_front_sharing_a_duplicate_key_is_rejected_deterministically() {
    let duplicate = front(1, Axial::new(1, 0), 0, 5);
    let mut renamed = duplicate;
    renamed.id = 2;
    let survivor = front(3, Axial::new(0, 1), 0, 5);

    let by_id = resolve_edge_combat(
        Axial::new(0, 0),
        5,
        0,
        &[duplicate, duplicate, survivor],
        &CombatConfig::default(),
    )
    .unwrap();
    assert_eq!(by_id.attacks.len(), 1);
    assert!(by_id.attacks.contains_key(&3));
    assert!(
        by_id
            .rejected
            .iter()
            .all(|rejection| rejection.reason == FrontRejection::DuplicateAttackId)
    );
    assert_eq!(by_id.rejected.len(), 2);

    let by_origin = resolve_edge_combat(
        Axial::new(0, 0),
        5,
        0,
        &[duplicate, renamed, survivor],
        &CombatConfig::default(),
    )
    .unwrap();
    assert_eq!(by_origin.attacks.len(), 1);
    assert!(by_origin.attacks.contains_key(&3));
    assert!(
        by_origin
            .rejected
            .iter()
            .all(|rejection| rejection.reason == FrontRejection::DuplicateOrigin)
    );
    assert_eq!(by_origin.rejected.len(), 2);
}

#[test]
fn two_attacker_owners_split_the_defender_and_the_stronger_owner_captures() {
    let attacks = [
        owned_front(1, 1, Axial::new(1, 0), 0, 10),
        owned_front(2, 2, Axial::new(0, 1), 0, 20),
    ];
    let result =
        resolve_edge_combat(Axial::new(0, 0), 15, 0, &attacks, &CombatConfig::default()).unwrap();
    // Defense splits 5/10 proportionally to engaged strength.
    assert_eq!(result.attacks[&1].defense_allocated, 5);
    assert_eq!(result.attacks[&2].defense_allocated, 10);
    assert_eq!(result.defender_casualties, 15);
    assert_eq!(result.defender_remaining, 0);
    // Survivors: owner 1 keeps 5, owner 2 keeps 10; owner 2 captures.
    assert_eq!(result.capturing_owner, Some(2));
    assert_eq!(result.capturing_front, Some(2));
    resolution_conserves(&result, &attacks);
}

#[test]
fn three_owner_contest_resolves_with_exact_defender_conservation() {
    let attacks = [
        owned_front(1, 3, Axial::new(1, 0), 0, 25),
        owned_front(2, 1, Axial::new(0, 1), 0, 25),
        owned_front(3, 2, Axial::new(-1, 1), 0, 10),
    ];
    let result =
        resolve_edge_combat(Axial::new(0, 0), 40, 0, &attacks, &CombatConfig::default()).unwrap();
    assert_eq!(
        result
            .attacks
            .values()
            .map(|outcome| outcome.defense_allocated)
            .sum::<u64>(),
        40
    );
    assert_eq!(result.defender_remaining, 0);
    // Survivors per owner: 3 → 25-16=9? Recomputed below from outcomes.
    let survivors_by_owner: BTreeMap<PlayerId, u64> = result
        .attacks
        .values()
        .map(|outcome| (outcome.attacker, outcome.attacker_remaining))
        .fold(BTreeMap::new(), |mut totals, (owner, remaining)| {
            *totals.entry(owner).or_default() += remaining;
            totals
        });
    let expected_winner = survivors_by_owner
        .iter()
        .filter(|&(_, &remaining)| remaining > 0)
        .max_by(|(left_owner, left), (right_owner, right)| {
            left.cmp(right).then_with(|| right_owner.cmp(left_owner))
        })
        .map(|(&owner, _)| owner);
    assert_eq!(result.capturing_owner, expected_winner);
    resolution_conserves(&result, &attacks);
}

#[test]
fn tied_owners_break_toward_the_smaller_owner_and_smaller_front_id() {
    let attacks = [
        owned_front(4, 7, Axial::new(1, 0), 0, 10),
        owned_front(2, 3, Axial::new(0, 1), 0, 10),
        owned_front(6, 3, Axial::new(-1, 1), 0, 10),
    ];
    // Zero defenders: everyone survives untouched, owner 3 has 20 vs 10.
    let result =
        resolve_edge_combat(Axial::new(0, 0), 0, 0, &attacks, &CombatConfig::default()).unwrap();
    assert_eq!(result.capturing_owner, Some(3));
    // Owner 3's fronts tie at 10 surviving; the smaller id wins.
    assert_eq!(result.capturing_front, Some(2));

    // Exact owner tie: 7 vs 3 both survive 10; smaller owner id captures.
    let tied = [
        owned_front(4, 7, Axial::new(1, 0), 0, 10),
        owned_front(2, 3, Axial::new(0, 1), 0, 10),
    ];
    let result =
        resolve_edge_combat(Axial::new(0, 0), 0, 0, &tied, &CombatConfig::default()).unwrap();
    assert_eq!(result.capturing_owner, Some(3));
    assert_eq!(result.capturing_front, Some(2));
}

#[test]
fn sub_lethal_attrition_conserves_strength_and_converges() {
    let config = CombatConfig {
        attacker_damage_bps: 2_500,
        defender_damage_bps: 1_500,
        ..CombatConfig::default()
    };
    let mut defender = 40_u64;
    let mut offered = [30_u64, 25];
    let origins = [Axial::new(1, 0), Axial::new(0, 1)];
    let initial_total = defender + offered.iter().sum::<u64>();
    let mut total_casualties = 0_u64;
    let mut steps = 0_usize;
    while defender > 0 && offered.iter().any(|&strength| strength > 0) {
        steps += 1;
        assert!(steps <= 200, "sub-lethal attrition must converge");
        let attacks: Vec<_> = origins
            .iter()
            .zip(offered)
            .enumerate()
            .filter(|&(_, (_, strength))| strength > 0)
            .map(|(index, (&from, strength))| owned_front(index as u64, 1, from, 0, strength))
            .collect();
        let result = resolve_edge_combat(Axial::new(0, 0), defender, 0, &attacks, &config).unwrap();
        assert!(result.rejected.is_empty());
        // Sub-lethal steps may deal zero casualties on tiny remainders;
        // the authoritative module layers its minimum-casualty rule on
        // top. Emulate it here so the fixture always converges.
        let mut defender_casualties = result.defender_casualties;
        if defender_casualties == 0 && defender > 0 {
            defender_casualties = 1;
        }
        defender_casualties = defender_casualties.min(defender);
        defender -= defender_casualties;
        total_casualties += defender_casualties;
        for (index, strength) in offered.iter_mut().enumerate() {
            if let Some(outcome) = result.attacks.get(&(index as u64)) {
                assert!(outcome.attacker_casualties <= *strength);
                *strength -= outcome.attacker_casualties;
                total_casualties += outcome.attacker_casualties;
            }
        }
        assert_eq!(
            defender + offered.iter().sum::<u64>() + total_casualties,
            initial_total,
            "attrition must conserve total strength every step"
        );
    }
    assert_eq!(defender, 0, "attackers eventually eliminate the defender");
    assert!(offered.iter().sum::<u64>() > 0);
}

#[test]
fn sub_lethal_multi_owner_attrition_is_deterministic() {
    let config = CombatConfig {
        attacker_damage_bps: 3_000,
        defender_damage_bps: 3_000,
        ..CombatConfig::default()
    };
    let run = || {
        let mut defender = 60_u64;
        let mut offered = BTreeMap::from([(1_u32, 35_u64), (2, 35)]);
        let origins = BTreeMap::from([(1_u32, Axial::new(1, 0)), (2, Axial::new(0, 1))]);
        let mut trace = Vec::new();
        for _ in 0..50 {
            if defender == 0 {
                break;
            }
            let attacks: Vec<_> = offered
                .iter()
                .filter(|&(_, &strength)| strength > 0)
                .map(|(&owner, &strength)| {
                    owned_front(u64::from(owner), owner, origins[&owner], 0, strength)
                })
                .collect();
            if attacks.is_empty() {
                break;
            }
            let result =
                resolve_edge_combat(Axial::new(0, 0), defender, 0, &attacks, &config).unwrap();
            defender = result.defender_remaining;
            for outcome in result.attacks.values() {
                *offered.get_mut(&outcome.attacker).unwrap() = outcome.attacker_remaining;
            }
            trace.push((defender, offered.clone(), result.capturing_owner));
        }
        trace
    };
    assert_eq!(run(), run());
    let trace = run();
    let (final_defender, final_offered, capture) = trace.last().unwrap().clone();
    assert_eq!(final_defender, 0);
    // Symmetric owners tie on survivors; the smaller owner captures.
    assert_eq!(final_offered[&1], final_offered[&2]);
    assert_eq!(capture, Some(1));
}

#[test]
fn an_uphill_share_above_the_whole_is_no_config() {
    let config = CombatConfig {
        uphill_attack_bps: 10_001,
        ..CombatConfig::default()
    };
    assert_eq!(
        resolve_edge_combat(Axial::new(0, 0), 1, 0, &[], &config),
        Err(CombatError::InvalidConfig)
    );
}

#[test]
fn the_larger_remaining_owner_captures_and_ties_go_to_smaller_numbers() {
    let outcome = |id: u64, attacker: PlayerId, attacker_remaining: u64| AttackOutcome {
        id,
        attacker,
        offered: attacker_remaining,
        engaged: attacker_remaining,
        waiting: 0,
        effective_attack: 0,
        defense_allocated: 0,
        attacker_casualties: 0,
        defender_casualties: 0,
        attacker_remaining,
    };
    let listed = |outcomes: &[AttackOutcome]| {
        outcomes
            .iter()
            .map(|outcome| (outcome.id, *outcome))
            .collect::<BTreeMap<_, _>>()
    };
    assert_eq!(select_capture(&BTreeMap::new()), (None, None));
    assert_eq!(
        select_capture(&listed(&[outcome(4, 2, 5), outcome(3, 2, 5), outcome(1, 1, 9)])),
        (Some(2), Some(3))
    );
    assert_eq!(
        select_capture(&listed(&[outcome(9, 2, 5), outcome(8, 3, 5)])),
        (Some(2), Some(9))
    );
}
