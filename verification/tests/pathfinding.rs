use hex_core::coord::Axial;
use hex_core::map::{Cell, HexMap, MovementConfig};
use hex_core::pathfinding::shortest_path;

fn insert_hexagon(map: &mut HexMap, reverse: bool) {
    let mut coordinates = vec![
        Axial::new(0, 0),
        Axial::new(1, 0),
        Axial::new(2, 0),
        Axial::new(0, 1),
        Axial::new(1, 1),
        Axial::new(2, 1),
    ];
    if reverse {
        coordinates.reverse();
    }
    for coordinate in coordinates {
        map.insert(Cell::ground(coordinate, 0, Some(7), 100));
    }
}

#[test]
fn finds_the_lowest_cost_path_and_includes_both_ends() {
    let mut map = HexMap::new();
    insert_hexagon(&mut map, false);
    map.get_mut(Axial::new(1, 0)).unwrap().elevation = 1;
    let path = shortest_path(
        &map,
        Axial::new(0, 0),
        Axial::new(2, 0),
        &MovementConfig::default(),
        |_| true,
    )
    .unwrap();

    assert_eq!(path.cells.first(), Some(&Axial::new(0, 0)));
    assert_eq!(path.cells.last(), Some(&Axial::new(2, 0)));
    assert_eq!(path.total_cost, 25);
}

#[test]
fn avoids_cliffs_and_disallowed_ownership() {
    let mut map = HexMap::new();
    insert_hexagon(&mut map, false);
    map.get_mut(Axial::new(1, 0)).unwrap().elevation = 2;
    map.get_mut(Axial::new(1, 1)).unwrap().owner = Some(9);
    let path = shortest_path(
        &map,
        Axial::new(0, 0),
        Axial::new(2, 0),
        &MovementConfig::default(),
        |cell| cell.owner == Some(7),
    );
    assert_eq!(path, None);
}

#[test]
fn path_is_independent_of_map_insertion_order() {
    let mut forward = HexMap::new();
    let mut reverse = HexMap::new();
    insert_hexagon(&mut forward, false);
    insert_hexagon(&mut reverse, true);
    let route = |map: &HexMap| {
        shortest_path(
            map,
            Axial::new(0, 0),
            Axial::new(2, 1),
            &MovementConfig::default(),
            |_| true,
        )
    };
    assert_eq!(route(&forward), route(&reverse));
}

#[test]
fn missing_and_filtered_endpoints_have_no_path() {
    let mut map = HexMap::new();
    map.insert(Cell::ground(Axial::new(0, 0), 0, Some(1), 100));
    assert_eq!(
        shortest_path(
            &map,
            Axial::new(0, 0),
            Axial::new(1, 0),
            &MovementConfig::default(),
            |_| true
        ),
        None
    );
    assert_eq!(
        shortest_path(
            &map,
            Axial::new(0, 0),
            Axial::new(0, 0),
            &MovementConfig::default(),
            |_| false
        ),
        None
    );
}
