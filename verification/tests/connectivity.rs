use hex_core::connectivity::{connected_components, owned_components};
use hex_core::coord::Axial;
use hex_core::map::{Cell, HexMap, MovementConfig};

#[test]
fn lost_corridor_creates_independent_owned_components() {
    let mut map = HexMap::new();
    for q in 0..5 {
        map.insert(Cell::ground(Axial::new(q, 0), 0, Some(1), 100));
    }
    assert_eq!(
        owned_components(&map, 1, &MovementConfig::default()).len(),
        1
    );

    map.get_mut(Axial::new(2, 0)).unwrap().owner = Some(2);
    assert_eq!(
        owned_components(&map, 1, &MovementConfig::default()),
        vec![
            vec![Axial::new(0, 0), Axial::new(1, 0)],
            vec![Axial::new(3, 0), Axial::new(4, 0)]
        ]
    );
}

#[test]
fn cliffs_split_a_selected_region() {
    let mut map = HexMap::new();
    map.insert(Cell::ground(Axial::new(0, 0), 0, Some(1), 100));
    map.insert(Cell::ground(Axial::new(1, 0), 2, Some(1), 100));
    map.insert(Cell::ground(Axial::new(2, 0), 0, Some(1), 100));
    let components = connected_components(&map, &map.coordinates(), &MovementConfig::default());
    assert_eq!(components.len(), 3);
}

#[test]
fn output_is_sorted_and_ignores_missing_or_water_cells() {
    let mut map = HexMap::new();
    map.insert(Cell::ground(Axial::new(1, 0), 0, Some(1), 100));
    map.insert(Cell::ground(Axial::new(0, 0), 0, Some(1), 100));
    map.insert(Cell::water(Axial::new(2, 0), 0));
    let components = connected_components(
        &map,
        &[
            Axial::new(99, 99),
            Axial::new(2, 0),
            Axial::new(1, 0),
            Axial::new(0, 0),
        ],
        &MovementConfig::default(),
    );
    assert_eq!(components, vec![vec![Axial::new(0, 0), Axial::new(1, 0)]]);
}
