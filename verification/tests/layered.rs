use hex_core::coord::{Axial, ChunkCoord, HexDirection, HexEdge};
use hex_core::layers::{
    Biome, CellLayers, Crossing, EdgeLayers, Landform, LayeredWorld, Surface, TerrainTags,
    WorldLayer, WorldSpec, GENERATOR_VERSION,
};
use hex_core::fingerprint::content_hash;
use hex_core::noise::{fractal_noise, mix, pass_seed, value_noise};
use hex_core::patch::WorldPatch;
use hex_core::pipeline::{generate, Relief, WorldPipeline};
use hex_core::relief::{range_count, ridge_draw};
use hex_core::world_check::validate;
use hex_core::world_pass::WorldPass;
use std::collections::BTreeSet;

fn point_segment_distance(point: (f64, f64), first: (f64, f64), second: (f64, f64)) -> f64 {
    let segment = (second.0 - first.0, second.1 - first.1);
    let length_squared = segment.0 * segment.0 + segment.1 * segment.1;
    let amount = if length_squared == 0.0 {
        0.0
    } else {
        (((point.0 - first.0) * segment.0 + (point.1 - first.1) * segment.1) / length_squared)
            .clamp(0.0, 1.0)
    };
    let nearest = (
        first.0 + segment.0 * amount,
        first.1 + segment.1 * amount,
    );
    (point.0 - nearest.0).hypot(point.1 - nearest.1)
}

/// The mountains and basins of a world, drawn with real numbers.
fn relief(spec: &WorldSpec) -> Relief {
    if spec.validate().is_err() {
        return Relief {
            uplift: Vec::new(),
            depths: Vec::new(),
        };
    }
    let world = LayeredWorld::empty(spec);
    let seed = pass_seed(spec.seed, "mountains");
    let short = f64::from(spec.width.min(spec.height));
    let radius = (short / 34.0).max(3.0);
    let ridges = (0..range_count(&world.manifest))
        .map(|index| {
            let draw = ridge_draw(seed, index);
            let x = f64::from(spec.width) * (0.20 + f64::from(draw.across) / 65_535.0 * 0.60);
            let y = f64::from(spec.height) * (0.20 + f64::from(draw.down) / 65_535.0 * 0.60);
            let angle = f64::from(draw.turn) * std::f64::consts::PI / 3.0;
            let half = short * (0.08 + f64::from(draw.length) / 255.0 * 0.11);
            let (dx, dy) = (angle.cos() * half, angle.sin() * half);
            ((x - dx, y - dy), (x + dx, y + dy), draw.height)
        })
        .collect::<Vec<_>>();
    let uplift = (0..spec.width * spec.height)
        .map(|id| {
            let place = (f64::from(id % spec.width), f64::from(id / spec.width));
            ridges.iter().fold(0_i16, |largest, ridge| {
                let distance = point_segment_distance(place, ridge.0, ridge.1);
                if distance >= radius {
                    return largest;
                }
                let profile = 1.0 - distance / radius;
                largest.max((f64::from(ridge.2) * profile * profile).round() as i16)
            })
        })
        .collect();
    let basin = (short / 38.0).max(4.0);
    let depths = (0_u32..)
        .map(f64::from)
        .take_while(|distance| *distance < basin)
        .map(|distance| {
            let profile = 1.0 - distance / basin;
            (150.0 * profile * profile).round() as i16
        })
        .collect();
    Relief { uplift, depths }
}

fn generated(size: u32, seed: u64) -> Result<LayeredWorld, String> {
    let spec = spec(size, seed);
    generate(&spec, relief(&spec))
}

fn spec(size: u32, seed: u64) -> WorldSpec {
    let mut spec = WorldSpec::new(format!("layered-{size}"), size, size, seed);
    spec.player_count = 8;
    spec.chunk_size = 32;
    spec
}

#[test]
fn layered_generation_is_deterministic_composed_and_valid() {
    let spec = spec(96, 42);
    let first = generate(&spec, relief(&spec)).expect("layered map should generate");
    let second = generate(&spec, relief(&spec)).expect("layered map should repeat");
    assert_eq!(first, second);
    let report = validate(&first).expect("layered map should validate");
    assert_eq!(report.total_cells, 96 * 96);
    assert!(report.land_cells > 0);
    assert_eq!(first.manifest.generator_version, GENERATOR_VERSION);
    assert_eq!(first.manifest.pipeline.len(), 9);
    assert_eq!(first.manifest.pipeline[0].name, "continent");
    assert!(
        first.manifest.pipeline[0]
            .writes
            .contains(&WorldLayer::Elevation)
    );
    assert!(
        first
            .cells()
            .iter()
            .any(|cell| cell.surface == Surface::Land && cell.river.is_some())
    );
    assert!(first.cells().iter().any(|cell| {
        cell.surface == Surface::Land
            && cell.river.is_some()
            && matches!(
                cell.landform,
                Landform::Plain | Landform::Valley | Landform::Hill
            )
    }));
}

#[test]
fn lakes_are_connected_and_have_stable_water_body_ids() {
    let mut spec = spec(128, 7);
    spec.parameters.lake_depth_threshold = 6;
    let world = generate(&spec, relief(&spec)).expect("lake-rich map should generate");
    let ids = world
        .cells()
        .iter()
        .filter(|cell| cell.surface == Surface::Lake)
        .map(|cell| cell.water_body_id.expect("lake has water-body id"))
        .collect::<BTreeSet<_>>();
    assert!(!ids.is_empty());
    assert_eq!(
        validate(&world)
            .expect("lakes should validate")
            .water_bodies,
        ids.len()
    );
}

#[test]
fn river_connections_remain_consistent_across_chunk_boundaries() {
    let world = generated(192, 99).expect("layered map should generate");
    let mut crossed_boundary = false;
    for (cell_id, cell) in world.cells().iter().enumerate() {
        let Some(river) = cell.river else {
            continue;
        };
        let next = world
            .neighbor_id(cell_id as u32, river.outflow)
            .expect("validated outflow");
        let first = world.coordinate(cell_id as u32).expect("cell coordinate");
        let second = world.coordinate(next).expect("next coordinate");
        let size = u32::from(world.manifest.chunk_size);
        let chunk_for = |coordinate: Axial| ChunkCoord {
            q: (coordinate.q - world.manifest.q_min).div_euclid(size as i32),
            r: (coordinate.r - world.manifest.r_min).div_euclid(size as i32),
        };
        if chunk_for(first) != chunk_for(second) {
            crossed_boundary = true;
            let first_chunk = chunk_for(first);
            let extracted = world.chunk(first_chunk).expect("source chunk");
            assert!(
                extracted
                    .cells
                    .iter()
                    .any(|cell| cell.cell_id == cell_id as u32)
            );
        }
    }
    assert!(
        crossed_boundary,
        "fixture should exercise a cross-chunk river"
    );
}

struct RoadPass;

impl WorldPass for RoadPass {
    fn name(&self) -> &'static str {
        "test-roads"
    }

    fn reads(&self) -> Vec<WorldLayer> {
        Vec::new()
    }

    fn writes(&self) -> Vec<WorldLayer> {
        vec![WorldLayer::Edges]
    }

    fn run(&self, world: &LayeredWorld, _seed: u64) -> Result<WorldPatch, String> {
        let first = world.manifest.spawn_cells[0];
        let second = HexDirection::ALL
            .into_iter()
            .map(|direction| first.neighbor(direction))
            .find(|neighbor| {
                world
                    .cell(*neighbor)
                    .is_some_and(|cell| cell.gameplay.passable)
            })
            .ok_or_else(|| "spawn has no road neighbor".to_owned())?;
        Ok(WorldPatch {
            edges: vec![(
                HexEdge::new(first, second).expect("adjacent road"),
                EdgeLayers {
                    road_level: 1,
                    ..EdgeLayers::default()
                },
            )],
            ..WorldPatch::default()
        })
    }
}

#[test]
fn independent_edge_pass_composes_without_replacing_cell_layers() {
    let spec = spec(96, 123);
    let base = generate(&spec, relief(&spec)).expect("base map");
    let (composed, _) = WorldPipeline::default_v2(relief(&spec))
        .with_pass(RoadPass)
        .run(&spec)
        .expect("road pass");
    assert_eq!(base.cells(), composed.cells());
    assert_eq!(composed.edges.len(), 1);
    let list = composed.edge_list();
    let (again, _) = WorldPipeline::default_v2(relief(&spec))
        .with_pass(RoadPass)
        .run(&spec)
        .expect("road pass repeats");
    let decoded = LayeredWorld::from_edge_list(again.manifest, again.cells, list)
        .expect("edge map should decode");
    assert_eq!(decoded, composed);
}

#[test]
fn scale_fixture_256_square_is_chunk_complete() {
    let world = generated(256, 2026).expect("scale fixture should generate");
    let report = validate(&world).expect("scale fixture should validate");
    assert_eq!(report.total_cells, 256 * 256);
    assert_eq!(report.chunks, 64);
}

#[test]
fn a_second_world_of_one_spec_is_the_same() {
    let spec = spec(96, 123);
    let pipeline = WorldPipeline::<RoadPass>::default_v2(relief(&spec));
    let again = WorldPipeline::<RoadPass>::default_v2(relief(&spec));
    let (first, reports) = pipeline.run(&spec).unwrap();
    let (second, reports_again) = again.run(&spec).unwrap();
    assert_eq!(first, second);
    assert_eq!(reports, reports_again);
    assert_eq!(first.manifest.name, spec.name);
    assert_eq!(first.manifest.seed, spec.seed);
    assert_eq!(first.manifest.player_count, spec.player_count);
}

#[test]
fn worlds_that_cannot_be_read_are_refused() {
    let spec = spec(96, 123);
    let mut world = LayeredWorld::empty(&spec);
    world.manifest.generator_version = 7;
    world.manifest.width = 0;
    assert_eq!(
        validate(&world).unwrap_err(),
        "unsupported layered generator version 7"
    );
    world.manifest.generator_version = GENERATOR_VERSION;
    assert_eq!(
        validate(&world).unwrap_err(),
        "layered manifest dimensions do not match cell count"
    );

    let (made, _) = WorldPipeline::<RoadPass>::default_v2(relief(&spec))
        .run(&spec)
        .unwrap();
    let mut manifest = made.manifest;
    manifest.width = 0;
    let mut bare = LayeredWorld::from_edge_list(manifest, Vec::new(), Vec::new()).unwrap();
    bare.manifest.content_hash = content_hash(&bare);
    assert!(validate(&bare).unwrap_err().ends_with(" is outside the map"));
    bare.manifest.spawn_cells = Vec::new();
    bare.manifest.player_count = 0;
    bare.manifest.content_hash = content_hash(&bare);
    assert_eq!(validate(&bare).unwrap_err(), "layered map has no passable land");
}

#[test]
fn edge_lists_round_trip() {
    let spec = spec(32, 5);
    let mut world = LayeredWorld::empty(&spec);
    for q in 0..3 {
        let edge = HexEdge::new(Axial::new(q, 0), Axial::new(q + 1, 0)).unwrap();
        let layers = EdgeLayers { road_level: q as u8, ..EdgeLayers::default() };
        world.edges.insert(edge, layers);
    }
    let list = world.edge_list();
    assert_eq!(list.len(), 3);
    let back =
        LayeredWorld::from_edge_list(world.manifest.clone(), world.cells().to_vec(), list).unwrap();
    assert_eq!(back, world);
}

#[test]
fn noise_meets_its_grid_and_stays_in_range() {
    for scale in [0_u32, 1, 2, 7, 96] {
        let step = scale.max(1);
        for (x, y) in [(0_u32, 0_u32), (3, 5), (40, 11)] {
            let value = value_noise(9, x * step, y * step, scale);
            let drawn = (mix(9, x as i32, y as i32) % 2_049) as i32 - 1_024;
            assert_eq!(value, drawn);
        }
        for x in 0..200 {
            let value = value_noise(31, x, 3 * x + 1, scale);
            assert!((-1_024..=1_024).contains(&value));
        }
    }
    let last = value_noise(9, u32::MAX, u32::MAX, 2);
    assert!((-1_024..=1_024).contains(&last));
    assert!((-1_024..=1_024).contains(&fractal_noise(9, u32::MAX, 7, 8)));
}

/// A world of some cells that begins at a place, with a record of one pass.
fn corner(q_min: i32, width: u32, height: u32, cell: CellLayers) -> LayeredWorld {
    let spec = spec(96, 123);
    let (made, _) = WorldPipeline::<RoadPass>::default_v2(relief(&spec))
        .run(&spec)
        .unwrap();
    let mut manifest = made.manifest;
    manifest.q_min = q_min;
    manifest.r_min = 0;
    manifest.width = width;
    manifest.height = height;
    manifest.player_count = 0;
    manifest.spawn_cells = Vec::new();
    let cells = vec![cell; (width * height) as usize];
    let mut world = LayeredWorld::from_edge_list(manifest, cells, Vec::new()).unwrap();
    world.manifest.content_hash = content_hash(&world);
    world
}

#[test]
fn numbers_reach_to_the_last_coordinate() {
    let mut world = corner(i32::MAX - 1, 3, 2, CellLayers::default());
    assert_eq!(world.cell_id(Axial::new(i32::MAX, 1)), Some(4));
    assert_eq!(world.cell_id(Axial::new(i32::MAX - 2, 1)), None);
    assert_eq!(world.cell_id(Axial::new(i32::MIN, 0)), None);
    assert_eq!(world.cell_id(Axial::new(i32::MAX, 2)), None);
    world.cell_mut(Axial::new(i32::MAX, 1)).unwrap().elevation = 9;
    assert_eq!(world.cell(Axial::new(i32::MAX, 1)).unwrap().elevation, 9);
    assert_eq!(world.cells()[4].elevation, 9);

    let far = corner(i32::MIN, 2, 1, CellLayers::default());
    assert_eq!(far.cell_id(Axial::new(i32::MIN + 1, 0)), Some(1));
    assert_eq!(far.cell_id(Axial::new(i32::MAX, 0)), None);
    let empty = corner(0, 0, 4, CellLayers::default());
    assert_eq!(empty.cell_id(Axial::new(0, 0)), None);
    assert!(empty.cell(Axial::new(0, 0)).is_none());
}

#[test]
fn faults_come_before_coordinates_are_asked_for() {
    let mut bad = CellLayers::default();
    bad.water_body_id = Some(1);
    assert_eq!(
        validate(&corner(i32::MAX, 2, 2, bad)).unwrap_err(),
        "land cell 0 belongs to a lake"
    );

    let mut rock = CellLayers::default();
    rock.gameplay.passable = false;
    rock.gameplay.capturable = false;
    let mut world = corner(i32::MAX, 2, 2, rock);
    assert_eq!(validate(&world).unwrap_err(), "layered map has no passable land");

    world.manifest.spawn_cells = vec![Axial::new(i32::MAX, 0)];
    world.manifest.content_hash = content_hash(&world);
    assert_eq!(
        validate(&world).unwrap_err(),
        "layered spawn count does not match player count"
    );
    world.manifest.player_count = 1;
    world.manifest.content_hash = content_hash(&world);
    assert!(validate(&world)
        .unwrap_err()
        .ends_with(" is not habitable capturable land"));
}

#[test]
fn layers_have_defaults_and_worlds_can_be_copied() {
    assert_eq!(Surface::default(), Surface::Land);
    assert_eq!(Landform::default(), Landform::Plain);
    assert_eq!(Biome::default(), Biome::TemperateGrassland);
    assert_eq!(TerrainTags::default(), TerrainTags(0));
    assert_eq!(Crossing::default(), Crossing::Absent);
    let cell = CellLayers::default();
    assert_eq!(cell.surface, Surface::default());
    assert_eq!(cell.tags, TerrainTags::default());

    let world = generated(96, 123).unwrap();
    let mut copy = world.clone();
    assert_eq!(copy, world);
    copy.cells_mut()[0].elevation += 1;
    assert_ne!(copy, world);
}
