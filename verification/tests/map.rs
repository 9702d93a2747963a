use hex_core::axials::EdgeMap;
use hex_core::coord::{Axial, HexEdge};
use hex_core::map::{
    ground_traversal, Cell, EdgeLimits, ForceComposition, HexMap, LogisticsConfig, MovementConfig,
    RawHexMap, TerrainKind,
};

#[test]
fn ground_traversal_obeys_slope_and_water_rules() {
    let movement = MovementConfig::default();
    let origin = Cell::ground(Axial::new(0, 0), 2, None, 100);
    let level = Cell::ground(Axial::new(1, 0), 2, None, 100);
    let uphill = Cell::ground(Axial::new(0, 1), 3, None, 100);
    let cliff = Cell::ground(Axial::new(-1, 1), 4, None, 100);
    let water = Cell::water(Axial::new(-1, 0), 2);

    assert_eq!(
        ground_traversal(&origin, &level, &movement).unwrap().cost,
        10
    );
    let slope = ground_traversal(&origin, &uphill, &movement).unwrap();
    assert_eq!(slope.cost, 15);
    assert!(slope.is_uphill());
    assert_eq!(ground_traversal(&origin, &cliff, &movement), None);
    assert_eq!(ground_traversal(&origin, &water, &movement), None);
}

#[test]
fn edge_limits_are_undirected_and_overridable() {
    let a = Axial::new(0, 0);
    let b = Axial::new(1, 0);
    let mut map = HexMap::new();
    map.insert(Cell::ground(a, 0, Some(1), 100));
    map.insert(Cell::ground(b, 0, Some(1), 100));
    let config = LogisticsConfig::default();
    assert_eq!(
        map.edge_limits(a, b, &config),
        Some(config.default_edge_limits())
    );

    let narrow = EdgeLimits {
        throughput: 3,
        frontage: 4,
    };
    assert!(map.set_edge_limits(a, b, narrow));
    assert_eq!(map.edge_limits(a, b, &config), Some(narrow));
    assert_eq!(map.edge_limits(b, a, &config), Some(narrow));
}

#[test]
fn deserialized_maps_reject_key_and_edge_invariant_violations() {
    let mut map = HexMap::new();
    map.insert(Cell::ground(Axial::new(0, 0), 0, Some(1), 100));
    map.insert(Cell::ground(Axial::new(1, 0), 0, Some(1), 100));
    assert!(map.set_edge_limits(
        Axial::new(0, 0),
        Axial::new(1, 0),
        EdgeLimits {
            throughput: 5,
            frontage: 6,
        },
    ));

    // Round trip through the raw wire shape preserves valid state.
    assert_eq!(HexMap::try_from(map.to_raw()).unwrap(), map);

    // A cell keyed away from its own coordinate is rejected.
    let mut misfiled = map.to_raw().cells;
    let stray = Cell::ground(Axial::new(5, 5), 0, Some(1), 100);
    misfiled.insert(Axial::new(9, 9), stray);
    let error = HexMap::try_from(RawHexMap {
        cells: misfiled,
        edge_limits: EdgeMap::new(),
    })
    .unwrap_err();
    assert!(error.contains("disagrees"), "{error}");

    // Edge limits over missing cells are rejected.
    let dangling = HexEdge::new(Axial::new(7, 0), Axial::new(8, 0)).unwrap();
    let mut limits = EdgeMap::new();
    limits.insert(
        dangling,
        EdgeLimits {
            throughput: 1,
            frontage: 1,
        },
    );
    let error = HexMap::try_from(RawHexMap {
        cells: map.to_raw().cells,
        edge_limits: limits,
    })
    .unwrap_err();
    assert!(error.contains("missing cells"), "{error}");
}

#[test]
fn deserialized_cells_reject_capacity_and_water_invariant_violations() {
    let ground = Cell::ground(Axial::new(0, 0), 0, Some(1), 100);
    let water = Cell::water(Axial::new(1, 0), 0);
    assert_eq!(
        Cell::try_from(Cell {
            coordinate: ground.coordinate,
            terrain: ground.terrain,
            elevation: ground.elevation,
            capturable: ground.capturable,
            habitable: ground.habitable,
            owner: ground.owner,
            civilian_population: ground.civilian_population,
            civilian_capacity: ground.civilian_capacity,
            forces: ground.forces,
            military_capacity: ground.military_capacity,
        })
        .unwrap(),
        ground
    );
    assert_eq!(
        Cell::try_from(Cell {
            coordinate: water.coordinate,
            terrain: water.terrain,
            elevation: water.elevation,
            capturable: water.capturable,
            habitable: water.habitable,
            owner: water.owner,
            civilian_population: water.civilian_population,
            civilian_capacity: water.civilian_capacity,
            forces: water.forces,
            military_capacity: water.military_capacity,
        })
        .unwrap(),
        water
    );

    let over_force = Cell::try_from(Cell {
        coordinate: Axial::new(0, 0),
        terrain: TerrainKind::Plains,
        elevation: 0,
        capturable: true,
        habitable: true,
        owner: Some(1),
        civilian_population: 0,
        civilian_capacity: 0,
        forces: ForceComposition::infantry(101),
        military_capacity: 100,
    })
    .unwrap_err();
    assert!(over_force.contains("military capacity"), "{over_force}");

    let over_civilians = Cell::try_from(Cell {
        coordinate: Axial::new(0, 0),
        terrain: TerrainKind::Plains,
        elevation: 0,
        capturable: true,
        habitable: true,
        owner: Some(1),
        civilian_population: 11,
        civilian_capacity: 10,
        forces: ForceComposition::default(),
        military_capacity: 100,
    })
    .unwrap_err();
    assert!(
        over_civilians.contains("civilian population"),
        "{over_civilians}"
    );

    let wet_garrison = Cell::try_from(Cell {
        coordinate: Axial::new(0, 0),
        terrain: TerrainKind::Water,
        elevation: 0,
        capturable: false,
        habitable: false,
        owner: None,
        civilian_population: 0,
        civilian_capacity: 0,
        forces: ForceComposition::infantry(1),
        military_capacity: 1,
    })
    .unwrap_err();
    assert!(wet_garrison.contains("water cell"), "{wet_garrison}");
}

#[test]
fn force_composition_and_capacity_stay_separate() {
    let mut cell = Cell::ground(Axial::new(0, 0), 0, Some(1), 100);
    cell.forces = ForceComposition::infantry(35);
    assert_eq!(cell.force(), 35);
    assert_eq!(cell.free_military_capacity(), 65);
}
