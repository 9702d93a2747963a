use hex_core::coord::Axial;
use hex_core::map::LogisticsConfig;
use hex_core::map_check::{validate, ValidationReport};
use hex_core::spawning::{
    axial_ring, high_scale_spawn_candidates, seed_radius, LEGACY_RING_PLAYER_LIMIT,
};
use hex_core::worldgen::{
    content_hash, generate, generate_for_players, generate_preset, generate_preset_for_players,
    try_generate_for_players, GeneratedMap, GenerationError, MapPreset, HIGH_SCALE_MILITARY_CAPACITY,
    HIGH_SCALE_SEED_INFANTRY, MIN_PLAYER_COUNT,
};
use std::collections::BTreeSet;

#[test]
fn every_curated_preset_is_pinned_deterministic_and_valid() {
    let cases = [
        (
            MapPreset::Dev,
            0x3b9b_9767_ada3_6223,
            ValidationReport {
                total_cells: 64 * 64,
                ground_cells: 2_456,
                capturable_cells: 2_395,
                cliffs: 54,
                slopes: 1_157,
            },
        ),
        (
            MapPreset::Playtest,
            0x894c_50e9_e590_ddb9,
            ValidationReport {
                total_cells: 128 * 128,
                ground_cells: 9_874,
                capturable_cells: 9_657,
                cliffs: 102,
                slopes: 4_296,
            },
        ),
        (
            MapPreset::Validation,
            0x40a1_9e2a_d460_8010,
            ValidationReport {
                total_cells: 192 * 192,
                ground_cells: 21_953,
                capturable_cells: 21_484,
                cliffs: 150,
                slopes: 9_370,
            },
        ),
    ];

    for (preset, expected_hash, expected_report) in cases {
        let first = generate_preset(preset);
        let second = generate_preset(preset);
        assert_eq!(first, second);
        assert_eq!(first.manifest.content_hash, expected_hash);
        assert_eq!(
            validate(&first).expect("curated seed should validate"),
            expected_report
        );
    }
}

#[test]
fn different_seeds_change_the_content_hash() {
    let first = generate("a", 32, 32, 1);
    let second = generate("b", 32, 32, 2);
    assert_ne!(first.manifest.content_hash, second.manifest.content_hash);
}

#[test]
fn supported_player_counts_are_deterministic_valid_and_fair_on_every_preset() {
    for preset in [MapPreset::Dev, MapPreset::Playtest, MapPreset::Validation] {
        for player_count in MIN_PLAYER_COUNT..=LEGACY_RING_PLAYER_LIMIT {
            let first = generate_preset_for_players(preset, player_count);
            let second = generate_preset_for_players(preset, player_count);
            assert_eq!(first, second, "{preset:?} {player_count}p changed");
            assert_eq!(first.manifest.player_count, player_count);
            assert_eq!(first.manifest.spawn_cells.len(), usize::from(player_count));
            validate(&first).expect("supported player map should validate");

            let totals = (1..=u32::from(player_count))
                .map(|owner| {
                    first
                        .cells
                        .cells()
                        .into_iter()
                        .filter(|cell| cell.owner == Some(owner))
                        .fold((0_u64, 0_u64, 0_u64), |totals, cell| {
                            (
                                totals.0 + 1,
                                totals.1 + cell.force(),
                                totals.2 + cell.civilian_population,
                            )
                        })
                })
                .collect::<BTreeSet<_>>();
            assert_eq!(totals.len(), 1, "{preset:?} {player_count}p is unfair");
        }
    }
}

#[test]
fn high_scale_boundary_counts_are_deterministic_valid_and_fair_on_every_preset() {
    const BOUNDARIES: [u16; 6] = [8, 9, 32, 128, 256, 500];
    for preset in [MapPreset::Dev, MapPreset::Playtest, MapPreset::Validation] {
        for player_count in BOUNDARIES {
            let first = generate_preset_for_players(preset, player_count);
            let second = generate_preset_for_players(preset, player_count);
            assert_eq!(first, second, "{preset:?} {player_count}p changed");
            assert_eq!(first.manifest.player_count, player_count);
            assert_eq!(first.manifest.spawn_cells.len(), usize::from(player_count));
            validate(&first).expect("high-scale map should validate");
            let footprint = if player_count > LEGACY_RING_PLAYER_LIMIT {
                1
            } else {
                let radius = seed_radius(first.manifest.width.min(first.manifest.height));
                1 + 3 * radius * (radius + 1)
            };
            let totals = (1..=u32::from(player_count))
                .map(|owner| {
                    first
                        .cells
                        .cells()
                        .into_iter()
                        .filter(|cell| cell.owner == Some(owner))
                        .fold((0_u64, 0_u64, 0_u64), |totals, cell| {
                            (
                                totals.0 + 1,
                                totals.1 + cell.force(),
                                totals.2 + cell.civilian_population,
                            )
                        })
                })
                .collect::<BTreeSet<_>>();
            assert_eq!(totals.len(), 1, "{preset:?} {player_count}p is unfair");
            assert_eq!(
                totals.iter().next().map(|row| row.0),
                Some(footprint),
                "{preset:?} {player_count}p footprint"
            );
        }
    }
}

#[test]
fn axial_spawn_target_ring_contains_each_hex_distance_exactly_once() {
    for radius in 1..=16 {
        let ring = axial_ring(radius);
        assert_eq!(ring.len(), usize::try_from(6 * radius).unwrap());
        assert_eq!(
            ring.iter().copied().collect::<BTreeSet<_>>().len(),
            ring.len()
        );
        assert!(ring.iter().all(
            |coordinate| coordinate.distance(Axial::new(0, 0)) == u64::try_from(radius).unwrap()
        ));
    }
}

#[test]
fn two_player_wrappers_retain_the_existing_output() {
    assert_eq!(
        generate_preset(MapPreset::Dev),
        generate_preset_for_players(MapPreset::Dev, 2)
    );
    assert_eq!(
        generate("custom", 32, 32, 9),
        generate_for_players("custom", 32, 32, 9, 2)
    );
}

#[test]
fn presets_expose_required_sizes() {
    assert_eq!(MapPreset::Dev.dimensions(), (64, 64));
    assert_eq!(MapPreset::Playtest.dimensions(), (128, 128));
    assert_eq!(MapPreset::Validation.dimensions(), (192, 192));
}

#[test]
fn presets_match_the_curated_catalog_contract() {
    let expected = [
        (MapPreset::Dev, "dev-stepped-island", 265_511_937),
        (
            MapPreset::Playtest,
            "playtest-stepped-island",
            4_195_428_354,
        ),
        (
            MapPreset::Validation,
            "validation-stepped-island",
            4_195_455_491,
        ),
    ];
    for (preset, name, seed) in expected {
        assert_eq!(preset.name(), name);
        assert_eq!(preset.seed(), seed);
        assert_eq!(generate_preset(preset).manifest.generator_version, 1);
    }

    assert_eq!(format!("{:?}", MapPreset::Dev), "Dev");
}

#[test]
fn generated_map_json_is_stable_array_based_and_round_trips() {
    let generated = generate_preset(MapPreset::Dev);
    let first = generated.cell_array();
    let second = generated.cell_array();
    assert_eq!(first, second);
    assert_eq!(first.len(), 64 * 64);

    let decoded = GeneratedMap::from_cell_array(generate_preset(MapPreset::Dev).manifest, first)
        .expect("generated map should decode");
    assert_eq!(decoded, generated);
    assert!(validate(&decoded).is_ok());
}

#[test]
fn generated_map_json_rejects_duplicate_coordinates() {
    let generated = generate_preset(MapPreset::Dev);
    let mut cells = generated.cell_array();
    cells.push(cells[0]);
    let error = GeneratedMap::from_cell_array(generated.manifest, cells)
        .expect_err("duplicate coordinates must be rejected");
    assert!(error.contains("duplicate map cell"));
}

#[test]
fn validation_rejects_stale_hash_and_manifest_metadata() {
    let mut changed = generate_preset(MapPreset::Dev);
    changed
        .cells
        .get_mut(changed.manifest.spawn_cells[0])
        .expect("spawn exists")
        .civilian_population -= 1;
    assert!(
        validate(&changed)
            .expect_err("changed content must invalidate the hash")
            .contains("content hash mismatch")
    );

    changed.manifest.content_hash = content_hash(
        &changed.cells,
        changed.manifest.width,
        changed.manifest.height,
        changed.manifest.seed,
    );
    assert!(
        validate(&changed)
            .expect_err("hash-consistent unfair totals must be rejected")
            .contains("equal initial controlled, infantry, and civilian totals")
    );

    let mut wrong_version = generate_preset(MapPreset::Dev);
    wrong_version.manifest.generator_version += 1;
    assert!(
        validate(&wrong_version)
            .expect_err("unknown generator version must fail")
            .contains("unsupported generator version")
    );
}

#[test]
fn supported_custom_dimensions_and_seed_sweep_validate_without_panics() {
    for seed in 0..32 {
        let generated = generate("seed-sweep", 24, 31, seed);
        validate(&generated).expect("supported generated map should validate");
    }
}

#[test]
fn legacy_two_player_minimum_boundary_remains_supported() {
    let generated = generate("minimum-two-player", 24, 24, 0);
    validate(&generated).expect("24 by 24 should remain valid for two players");
}

#[test]
fn multiplayer_minimum_boundary_supports_eight_players() {
    let generated = generate_for_players("minimum-multiplayer", 32, 32, 0, 8);
    validate(&generated).expect("32 by 32 should support every configured player count");
}

#[test]
fn nine_players_use_one_cell_high_scale_spawns() {
    let generated = generate_preset_for_players(MapPreset::Dev, 9);
    validate(&generated).expect("9p should validate");
    for owner in 1..=9 {
        let owned = generated
            .cells
            .cells()
            .into_iter()
            .filter(|cell| cell.owner == Some(owner))
            .count();
        assert_eq!(owned, 1, "player {owner} should own one cell");
    }
}

#[test]
fn high_scale_spawns_use_one_uniform_capacity_tier_never_undersized() {
    for preset in [MapPreset::Dev, MapPreset::Playtest, MapPreset::Validation] {
        for player_count in [9_u16, 32, 128, 500] {
            let generated = generate_preset_for_players(preset, player_count);
            validate(&generated).expect("high-scale map should validate");
            let mut capacities = BTreeSet::new();
            for spawn in &generated.manifest.spawn_cells {
                let cell = generated.cells.get(*spawn).expect("spawn cell");
                assert!(
                    cell.military_capacity >= HIGH_SCALE_SEED_INFANTRY,
                    "{preset:?} {player_count}p spawn capacity {} < seed {HIGH_SCALE_SEED_INFANTRY}",
                    cell.military_capacity
                );
                assert_ne!(
                    cell.military_capacity, 60,
                    "{preset:?} {player_count}p must never seed into mountain capacity 60"
                );
                assert_eq!(cell.force(), HIGH_SCALE_SEED_INFANTRY);
                capacities.insert(cell.military_capacity);
            }
            assert_eq!(
                capacities.len(),
                1,
                "{preset:?} {player_count}p mixed capacity tiers: {capacities:?}"
            );
            assert_eq!(
                capacities,
                BTreeSet::from([HIGH_SCALE_MILITARY_CAPACITY]),
                "{preset:?} {player_count}p spawn capacity was not normalized"
            );
            for spawn in &generated.manifest.spawn_cells {
                assert!(
                    spawn.neighbors().into_iter().any(|neighbor| {
                        generated.cells.get(neighbor).is_some_and(|cell| {
                            cell.capturable
                                && cell.terrain.ground_passable()
                                && cell.owner.is_none()
                        })
                    }),
                    "{preset:?} {player_count}p spawn {spawn:?} has no neutral expansion frontage"
                );
            }
        }
    }
}

#[test]
fn high_scale_candidates_have_expansion_frontage() {
    let generated = generate_preset(MapPreset::Dev);
    let candidates = high_scale_spawn_candidates(&generated.cells);
    assert!(candidates.len() >= 500);
    for coordinate in candidates {
        assert!(coordinate.neighbors().into_iter().any(|neighbor| {
            generated
                .cells
                .get(neighbor)
                .is_some_and(|cell| cell.capturable && cell.terrain.ground_passable())
        }));
    }
}

#[test]
fn sizes_and_player_counts_that_are_not_supported_are_told_apart() {
    assert_eq!(
        try_generate_for_players("small", 23, 24, 0, 2).unwrap_err(),
        GenerationError::TooSmall
    );
    assert_eq!(
        try_generate_for_players("small", 24, 23, 0, 2).unwrap_err(),
        GenerationError::TooSmall
    );
    assert_eq!(
        try_generate_for_players("crowded", 24, 24, 0, 501).unwrap_err(),
        GenerationError::UnsupportedPlayerCount
    );
    assert_eq!(
        try_generate_for_players("narrow", 31, 32, 0, 8).unwrap_err(),
        GenerationError::TooSmallForPlayers
    );
}

#[test]
fn generated_maps_have_no_edge_limits_of_their_own() {
    let map = generate_preset_for_players(MapPreset::Dev, 9);
    let config = LogisticsConfig::default();
    for cell in map.cells.cells() {
        for neighbor in cell.coordinate.neighbors() {
            if map.cells.contains(neighbor) {
                assert_eq!(
                    map.cells.edge_limits(cell.coordinate, neighbor, &config),
                    Some(config.default_edge_limits())
                );
            }
        }
    }
    let array = map.cell_array();
    let back = GeneratedMap::from_cell_array(map.manifest.clone(), array).unwrap();
    assert_eq!(back, map);
}

#[test]
fn every_player_starts_with_the_same() {
    for players in [3, 8, 9, 40] {
        let map = generate_preset_for_players(MapPreset::Dev, players);
        let radius = if players > LEGACY_RING_PLAYER_LIMIT { 0 } else { seed_radius(64) };
        let size = 1 + 3 * radius * (radius + 1);
        let (infantry, civilians) = (35 * size + 35, 80 * size + 100);
        for owner in 1..=u32::from(players) {
            let owned: Vec<_> =
                map.cells.cells().into_iter().filter(|cell| cell.owner == Some(owner)).collect();
            let start = map.manifest.spawn_cells[owner as usize - 1];
            assert_eq!(owned.len() as u64, size);
            assert!(owned.iter().all(|cell| cell.coordinate.distance(start) <= radius));
            assert_eq!(owned.iter().map(|cell| cell.force()).sum::<u64>(), infantry);
            assert_eq!(
                owned.iter().map(|cell| cell.civilian_population).sum::<u64>(),
                civilians
            );
        }
    }
}

#[test]
fn maps_can_be_copied() {
    let map = generate_preset(MapPreset::Dev);
    let copy = map.clone();
    assert_eq!(copy, map);
    let m = &copy.manifest;
    assert_eq!(content_hash(&copy.cells, m.width, m.height, m.seed), map.manifest.content_hash);
}

#[test]
fn two_starts_have_room_on_curated_islands() {
    for preset in [MapPreset::Dev, MapPreset::Validation] {
        let map = generate_preset(preset);
        let short = u64::from(map.manifest.width.min(map.manifest.height));
        let radius = (short / 24).max(2);
        let spacing = (3 * (short / 4) / 2).max(2 * radius + 1);
        let starts = &map.manifest.spawn_cells;
        assert!(starts[0].distance(starts[1]) >= spacing);
        for (index, start) in starts.iter().enumerate() {
            let owned = map
                .cell_array()
                .into_iter()
                .filter(|cell| cell.owner == Some(index as u32 + 1))
                .collect::<Vec<_>>();
            assert_eq!(owned.len() as u64, 3 * radius * (radius + 1) + 1);
            assert!(owned
                .iter()
                .all(|cell| cell.coordinate.distance(*start) <= radius));
        }
        assert!(validate(&map).is_ok());
    }
}
