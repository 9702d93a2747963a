use hex_core::coord::{Axial, ChunkCoord, HexDirection, HexEdge};
use hex_core::hydrology::label_lakes;
use hex_core::layers::{LayeredWorld, Surface, TerrainTags, WorldSpec};
use hex_core::axials::{AxialMap, AxialSet};

/// A world of nothing but sea.
fn sea(size: u32) -> LayeredWorld {
    let mut spec = WorldSpec::new("small".to_string(), size, size, 3);
    spec.chunk_size = 8;
    assert_eq!(spec.validate(), Ok(()));
    let mut world = LayeredWorld::empty(&spec);
    for cell in world.cells_mut() {
        cell.surface = Surface::Ocean;
    }
    world
}

fn id(world: &LayeredWorld, column: u32, row: u32) -> u32 {
    row * world.width() + column
}

#[test]
fn tags_accumulate() {
    let mut tags = TerrainTags(TerrainTags::COAST);
    tags.insert(TerrainTags::SOURCE);
    assert!(tags.contains(TerrainTags::COAST));
    assert!(tags.contains(TerrainTags::SOURCE));
    assert!(!tags.contains(TerrainTags::OUTLET));
}

#[test]
fn numbers_are_places_and_neighbours_are_mutual() {
    let world = sea(32);
    for number in 0..32 * 32 {
        let place = world.coordinate(number).unwrap();
        assert_eq!(world.cell_id(place), Some(number));
        for direction in HexDirection::ALL {
            if let Some(other) = world.neighbor_id(number, direction) {
                assert_eq!(world.neighbor_id(other, direction.opposite()), Some(number));
            }
        }
    }
    assert_eq!(world.coordinate(32 * 32), None);
    assert_eq!(world.cell_id(Axial::new(i32::MAX, 0)), None);
}

#[test]
fn a_flood_finds_what_is_linked_and_nothing_else() {
    let world = sea(32);
    let mut open = vec![false; 32 * 32];
    for column in 4..9 {
        open[id(&world, column, 5) as usize] = true;
    }
    open[id(&world, 20, 20) as usize] = true;
    let flood = world.flood(&open, &[id(&world, 6, 5)]);
    let mut found = flood.order.clone();
    found.sort_unstable();
    assert_eq!(
        found,
        (4..9).map(|column| id(&world, column, 5)).collect::<Vec<_>>()
    );
    assert_eq!(flood.order[0], id(&world, 6, 5));
    assert_eq!(flood.positions[id(&world, 20, 20) as usize], None);
    assert_eq!(flood.order, world.flood(&open, &[id(&world, 6, 5)]).order);
}

#[test]
fn parts_are_listed_by_their_first_cells() {
    let world = sea(32);
    let mut open = vec![false; 32 * 32];
    for cell in [id(&world, 9, 1), id(&world, 10, 1), id(&world, 2, 7)] {
        open[cell as usize] = true;
    }
    let parts = world.parts(&open);
    assert_eq!(parts.parts.len(), 2);
    assert_eq!(parts.parts[1], vec![id(&world, 2, 7)]);
    assert_eq!(parts.labels[id(&world, 10, 1) as usize], Some(0));
    let (numbers, lakes) = label_lakes(&world, &open);
    assert_eq!(lakes, 2);
    assert_eq!(numbers[id(&world, 2, 7) as usize], Some(2));
    assert_eq!(numbers[0], None);
}

#[test]
fn water_stands_at_the_lowest_rim_and_streams_run_down() {
    let mut world = sea(32);
    let hole = Axial::new(0, 0);
    let (q, r) = (hole.q, hole.r);
    for (dq, dr) in [(0, 0), (1, 0), (0, 1), (-1, 1), (-1, 0), (0, -1), (1, -1)] {
        let cell = world.cell_mut(Axial::new(q + dq, r + dr)).unwrap();
        cell.surface = Surface::Land;
        cell.elevation = 40;
    }
    world.cell_mut(hole).unwrap().elevation = 10;
    world.cell_mut(Axial::new(1, 0)).unwrap().elevation = 25;

    let filled = world.fill();
    let hole_id = world.cell_id(hole).unwrap() as usize;
    let rim_id = world.cell_id(Axial::new(1, 0)).unwrap() as usize;
    assert_eq!(filled[hole_id], 25);
    assert_eq!(filled[rim_id], 25);
    for (cell, level) in world.cells().iter().zip(&filled) {
        assert!(*level >= cell.elevation);
    }

    let ocean = world
        .cells()
        .iter()
        .map(|cell| cell.surface == Surface::Ocean)
        .collect::<Vec<_>>();
    let land = ocean.iter().map(|wet| !wet).collect::<Vec<_>>();
    let lake = vec![false; ocean.len()];
    let streams = world.streams(&filled, &ocean, &land, &lake, 11);
    for (number, step) in streams.down.iter().enumerate() {
        if let Some(step) = step {
            let next = step.1 as usize;
            assert!(filled[next] <= filled[number]);
            assert!(streams.flow[next] >= streams.flow[number] || ocean[next]);
        }
    }
}

#[test]
fn maps_and_sets_of_coordinates_are_ordered() {
    let places = [
        Axial::new(3, -1),
        Axial::new(-2, 5),
        Axial::new(i32::MAX, i32::MIN),
        Axial::new(-2, -5),
        Axial::new(i32::MIN, i32::MAX),
    ];
    let mut map = AxialMap::new();
    for (value, place) in places.iter().enumerate() {
        assert_eq!(map.insert(*place, value), None);
    }
    assert_eq!(
        map.keys(),
        vec![
            Axial::new(i32::MIN, i32::MAX),
            Axial::new(-2, -5),
            Axial::new(-2, 5),
            Axial::new(3, -1),
            Axial::new(i32::MAX, i32::MIN),
        ]
    );
    assert_eq!(map.first_key(), Some(Axial::new(i32::MIN, i32::MAX)));
    *map.get_mut(Axial::new(3, -1)).unwrap() = 70;
    assert!(map.get_mut(Axial::new(3, 1)).is_none());
    assert_eq!(map.get(Axial::new(3, -1)), Some(&70));
    assert_eq!(map.get(Axial::new(-2, 5)), Some(&1));
    assert_eq!(map.remove(Axial::new(-2, 5)), Some(1));
    assert_eq!(map.len(), 4);

    let mut set = AxialSet::from_slice(&places);
    assert!(!set.insert(places[0]));
    assert_eq!(set.pop_first(), Some(Axial::new(i32::MIN, i32::MAX)));
    assert!(set.remove(places[1]));
    assert_eq!(set.len(), 3);
}

#[test]
fn chunks_cover_a_world_once() {
    let world = sea(33);
    let mut seen = 0;
    for r in 0..world.chunks_high() {
        for q in 0..world.chunks_wide() {
            let chunk = world
                .chunk(ChunkCoord { q: q as i32, r: r as i32 })
                .unwrap();
            seen += chunk.cells.len();
        }
    }
    assert_eq!(seen, 33 * 33);
    assert!(world.chunk(ChunkCoord { q: -1, r: 0 }).is_none());
}

#[test]
fn edges_have_no_direction() {
    let (a, b) = (Axial::new(0, 0), Axial::new(1, 0));
    assert_eq!(HexEdge::try_from(a, b), HexEdge::try_from(a, b));
    assert_eq!(HexEdge::new(a, b), HexEdge::new(b, a));
    assert_eq!(HexEdge::new(a, Axial::new(2, 0)), None);
}
