use hex_core::axials::{AxialMap, AxialSet};
use hex_core::coord::{Axial, ChunkCoord};
use hex_core::map::TerrainKind;
use hex_core::outline::{
    brush_category, collect_population_boundary_edges, edge_touches_visible_chunk,
    perimeter_edge_count, push_front_edge_tone, region_perimeter, BrushCategory, BrushMarks, EdgeTone,
};
use hex_core::projection::{chunk_of, CellView, MapViewMode};
use hex_core::registry::{sort_chunks_near_origin, RefreshResult, TerrainChunkRegistry};
use hex_core::shape::{chunk_shape, CellShape};
use std::collections::BTreeSet;

/// The side of a render chunk.
const CHUNK: u32 = 8;

fn set(cells: &[Axial]) -> AxialSet {
    AxialSet::from_slice(cells)
}

fn cell(coordinate: Axial, owner: Option<u32>, blocked: bool) -> CellView {
    CellView {
        coordinate,
        terrain: TerrainKind::Plains,
        elevation: 0,
        owner,
        civilians: 0,
        infantry: 0,
        military_capacity: 100,
        blocked,
    }
}

fn populated_cell(coordinate: Axial, owner: Option<u32>) -> CellView {
    CellView {
        coordinate,
        terrain: TerrainKind::Plains,
        elevation: 1,
        owner,
        civilians: 20,
        infantry: 0,
        military_capacity: 100,
        blocked: false,
    }
}

fn view_with_cells(cells: impl IntoIterator<Item = CellView>) -> AxialMap<CellView> {
    let mut view = AxialMap::new();
    for cell in cells {
        view.insert(cell.coordinate, cell);
    }
    view
}

#[test]
fn perimeter_counts_only_exposed_edges() {
    assert_eq!(perimeter_edge_count(&set(&[])), 0);
    assert_eq!(perimeter_edge_count(&set(&[Axial::new(0, 0)])), 6);
    assert_eq!(
        perimeter_edge_count(&set(&[Axial::new(0, 0), Axial::new(1, 0)])),
        10
    );

    let center_and_neighbors = Axial::new(0, 0)
        .neighbors()
        .into_iter()
        .chain([Axial::new(0, 0)])
        .collect::<Vec<_>>();
    assert_eq!(perimeter_edge_count(&set(&center_and_neighbors)), 18);
}

#[test]
fn only_selected_cells_in_sight_show_their_sides() {
    let selection = set(&[Axial::new(0, 0), Axial::new(1, 0)]);
    assert_eq!(
        region_perimeter(&selection, &vec![Axial::new(1, 0), Axial::new(9, 9)]),
        [0_u8, 1, 2, 4, 5]
            .into_iter()
            .map(|direction| (Axial::new(1, 0), direction))
            .collect::<Vec<_>>()
    );
}

#[test]
fn push_edge_visibility_uses_chunks_instead_of_cell_ordering() {
    let visible = set(&[chunk_of(Axial::new(0, 0), CHUNK)]);
    assert!(edge_touches_visible_chunk(
        &visible,
        CHUNK,
        Axial::new(0, 0),
        Axial::new(20, 0),
    ));
    assert!(edge_touches_visible_chunk(
        &visible,
        CHUNK,
        Axial::new(20, 0),
        Axial::new(1, 0),
    ));
    assert!(!edge_touches_visible_chunk(
        &visible,
        CHUNK,
        Axial::new(20, 0),
        Axial::new(21, 0),
    ));
}

#[test]
fn brush_categories_keep_the_full_footprint_legible() {
    let selected = Axial::new(0, 0);
    let available = Axial::new(1, 0);
    let blocked = Axial::new(0, 1);
    let foreign = Axial::new(-1, 0);
    let off_map = Axial::new(8, 8);
    let view = view_with_cells([
        cell(selected, Some(1), false),
        cell(available, Some(1), false),
        cell(blocked, Some(1), true),
        cell(foreign, Some(2), false),
    ]);
    let sources = set(&[selected]);
    let category = |coordinate: Axial| {
        brush_category(
            view.get(coordinate).copied(),
            BrushMarks {
                shape_target: false,
                source: sources.contains(coordinate),
                retask_handle: false,
            },
            1,
            false,
        )
    };

    assert_eq!(category(selected), BrushCategory::AlreadySelected);
    assert_eq!(category(available), BrushCategory::Selectable);
    assert_eq!(category(blocked), BrushCategory::Blocked);
    assert_eq!(category(foreign), BrushCategory::Foreign);
    assert_eq!(category(off_map), BrushCategory::OffMap);
}

#[test]
fn a_drawn_shape_and_a_handle_have_categories_of_their_own() {
    let ground = cell(Axial::new(0, 0), Some(1), false);
    let marks = BrushMarks {
        shape_target: true,
        source: false,
        retask_handle: true,
    };
    assert_eq!(
        brush_category(Some(ground), marks, 1, true),
        BrushCategory::ShapeTarget
    );
    assert_eq!(
        brush_category(Some(ground), marks, 1, false),
        BrushCategory::RetaskHandle
    );
}

#[test]
fn push_edges_distinguish_inward_neutral_and_hostile_targets() {
    assert_eq!(push_front_edge_tone(1, Some(1)), EdgeTone::Friendly);
    assert_eq!(push_front_edge_tone(1, None), EdgeTone::Neutral);
    assert_eq!(push_front_edge_tone(1, Some(2)), EdgeTone::Hostile);
}

#[test]
fn isolated_population_cell_has_six_exposed_edges() {
    let coordinate = Axial::new(0, 0);
    let view = view_with_cells([populated_cell(coordinate, Some(1))]);
    let edges = collect_population_boundary_edges(&view, &vec![coordinate], usize::MAX).unwrap();

    assert_eq!(edges.len(), 6);
}

#[test]
fn adjacent_population_pair_has_ten_exposed_edges() {
    let left = Axial::new(0, 0);
    let right = Axial::directions()[0];
    let view = view_with_cells([
        populated_cell(left, Some(1)),
        populated_cell(right, Some(2)),
    ]);
    let edges = collect_population_boundary_edges(&view, &vec![right, left], usize::MAX).unwrap();

    assert_eq!(edges.len(), 10);
    assert_eq!(
        edges,
        collect_population_boundary_edges(&view, &vec![left, right], usize::MAX).unwrap()
    );
}

#[test]
fn ownership_does_not_split_a_population_cluster() {
    let left = Axial::new(0, 0);
    let right = Axial::directions()[0];
    let view = view_with_cells([
        populated_cell(left, Some(1)),
        populated_cell(right, Some(2)),
    ]);
    let edges = collect_population_boundary_edges(&view, &vec![left, right], usize::MAX).unwrap();

    assert!(!edges.iter().any(|edge| {
        (edge.coordinate == left && usize::from(edge.direction) == 0)
            || (edge.coordinate == right && usize::from(edge.direction) == 3)
    }));
}

#[test]
fn zero_population_and_water_never_join_a_cluster() {
    let empty = Axial::new(0, 0);
    let water = Axial::directions()[0];
    let mut empty_cell = populated_cell(empty, None);
    empty_cell.civilians = 0;
    let mut water_cell = populated_cell(water, None);
    water_cell.terrain = TerrainKind::Water;
    let view = view_with_cells([empty_cell, water_cell]);

    assert!(
        collect_population_boundary_edges(&view, &vec![empty, water], usize::MAX)
            .unwrap()
            .is_empty()
    );
}

#[test]
fn adjacency_across_a_render_chunk_seam_has_no_internal_edges() {
    let left = Axial::new(7, 0);
    let right = Axial::new(8, 0);
    let view = view_with_cells([
        populated_cell(left, Some(1)),
        populated_cell(right, Some(1)),
    ]);

    assert_ne!(chunk_of(left, CHUNK), chunk_of(right, CHUNK));
    assert_eq!(
        collect_population_boundary_edges(&view, &vec![left, right], usize::MAX)
            .unwrap()
            .len(),
        10
    );
}

#[test]
fn boundary_cap_hides_the_whole_result_instead_of_sampling() {
    let coordinate = Axial::new(0, 0);
    let view = view_with_cells([populated_cell(coordinate, None)]);

    assert!(collect_population_boundary_edges(&view, &vec![coordinate], 5).is_none());
    assert_eq!(
        collect_population_boundary_edges(&view, &vec![coordinate], 6)
            .unwrap()
            .len(),
        6
    );
}

#[test]
fn a_place_that_is_named_twice_is_outlined_once() {
    let coordinate = Axial::new(0, 0);
    let view = view_with_cells([populated_cell(coordinate, None)]);
    let twice = vec![coordinate, coordinate];
    let edges = collect_population_boundary_edges(&view, &twice, 12).unwrap();
    assert_eq!(edges.len(), 6);
    assert!(edges.windows(2).all(|pair| pair[0].direction < pair[1].direction));
    assert!(collect_population_boundary_edges(&view, &twice, 11).is_none());
}

fn test_chunk(q: i32, r: i32) -> ChunkCoord {
    ChunkCoord { q, r }
}

#[test]
fn registry_reconciles_only_missing_and_removed_chunks() {
    let a = test_chunk(0, 0);
    let b = test_chunk(1, 0);
    let c = test_chunk(2, 0);
    let d = test_chunk(3, 0);
    let mut registry = TerrainChunkRegistry::new(1, MapViewMode::Overview, &vec![a, b, c]);
    assert_eq!(registry.take_pending_spawns(usize::MAX).len(), 3);

    let entity_a = 1;
    let entity_b = 2;
    let entity_c = 3;
    registry.register(a, entity_a);
    registry.register(b, entity_b);
    registry.register(c, entity_c);

    let removed = registry.reconcile(2, &vec![b, c, d]);

    assert_eq!(removed, vec![entity_a]);
    assert_eq!(registry.entity(b), Some(entity_b));
    assert_eq!(registry.entity(c), Some(entity_c));
    assert!(registry.entity(a).is_none());
    assert_eq!(registry.take_pending_spawns(8), vec![d]);
    assert_eq!(registry.topology_revision, 2);
}

#[test]
fn registry_work_queues_respect_requested_budgets() {
    let coordinates = (0..20).map(|q| test_chunk(q, 0)).collect::<Vec<_>>();
    let mut registry = TerrainChunkRegistry::new(4, MapViewMode::Overview, &coordinates);

    let first_spawns = registry.take_pending_spawns(5);
    let second_spawns = registry.take_pending_spawns(5);
    assert_eq!(first_spawns.len(), 5);
    assert_eq!(second_spawns.len(), 5);
    assert_eq!(registry.pending_spawns.len(), 10);

    registry.begin_mode_sweep();
    let first_sweep = registry.take_mode_sweep(7);
    let second_sweep = registry.take_mode_sweep(7);
    let third_sweep = registry.take_mode_sweep(7);
    assert_eq!(first_sweep.len(), 7);
    assert_eq!(second_sweep.len(), 7);
    assert_eq!(third_sweep.len(), 6);
    assert!(registry.take_mode_sweep(7).is_empty());
    assert_eq!(
        first_sweep
            .into_iter()
            .chain(second_sweep)
            .chain(third_sweep)
            .collect::<BTreeSet<_>>(),
        coordinates.into_iter().collect()
    );
}

#[test]
fn near_chunks_come_first_and_equally_far_ones_keep_their_order() {
    let chunks = vec![
        test_chunk(3, 0),
        test_chunk(0, -1),
        test_chunk(-1, 0),
        test_chunk(0, 0),
    ];
    assert_eq!(
        sort_chunks_near_origin(&chunks),
        vec![
            test_chunk(0, 0),
            test_chunk(0, -1),
            test_chunk(-1, 0),
            test_chunk(3, 0),
        ]
    );
}

#[test]
fn a_chunk_waits_in_one_queue_until_it_is_drawn() {
    let chunk = test_chunk(2, 1);
    let mut registry = TerrainChunkRegistry::new(1, MapViewMode::Overview, &vec![chunk]);
    registry.take_pending_spawns(1);
    registry.register(chunk, 9);

    let mut dirty = set(&[Axial::new(2, 1), Axial::new(7, 7)]);
    assert_eq!(
        registry.take_classification(&mut dirty),
        vec![test_chunk(2, 1), test_chunk(7, 7)]
    );
    assert!(dirty.is_empty());
    registry.classify(chunk, Some(true));
    registry.classify(chunk, Some(true));
    registry.classify(test_chunk(7, 7), Some(true));
    assert_eq!(registry.visible_updates.len(), 1);

    assert_eq!(registry.next_update(true), Some((chunk, Some(9))));
    registry.note_refresh(chunk, true, RefreshResult::Reclassify);
    assert_eq!(registry.next_update(true), None);
    assert_eq!(registry.next_update(false), Some((chunk, Some(9))));
    registry.note_refresh(chunk, false, RefreshResult::Missing);
    assert_eq!(registry.entity(chunk), None);
    assert_eq!(registry.take_pending_spawns(4), vec![chunk]);
}

#[test]
fn shapes_tell_heights_and_water_but_not_people() {
    let here = Axial::new(0, 0);
    let east = Axial::new(1, 0);
    let far = Axial::new(5, 5);
    let board = |height: i16, terrain: TerrainKind, civilians: u64| {
        let mut beside = cell(east, None, false);
        beside.elevation = height;
        beside.terrain = terrain;
        beside.civilians = civilians;
        view_with_cells([cell(here, Some(1), false), beside])
    };
    let places = [here, far];
    let before = chunk_shape(&board(2, TerrainKind::Plains, 0), &places);
    assert_eq!(before.len(), 2);
    assert_eq!(
        before[0].cell,
        Some(CellShape {
            elevation: 0,
            water: false
        })
    );
    assert_eq!(
        before[0].beside[0],
        Some(CellShape {
            elevation: 2,
            water: false
        })
    );
    assert_eq!(before[0].beside[3], None);
    assert_eq!(before[1].cell, None);
    assert_eq!(chunk_shape(&board(2, TerrainKind::Hills, 7), &places), before);
    assert_ne!(chunk_shape(&board(3, TerrainKind::Plains, 0), &places), before);
    assert_ne!(chunk_shape(&board(2, TerrainKind::Water, 0), &places), before);
}
