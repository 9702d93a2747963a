use hex_core::conquest::{ConquestError, ConquestRule};
use hex_core::coord::Axial;
use hex_core::map::{Cell, HexMap};

#[test]
fn v1_requires_exactly_eighty_percent_with_ceiling() {
    let hundred = ConquestRule::v1(100).unwrap();
    assert_eq!(hundred.required_control(), 80);
    assert!(!hundred.progress(79).won);
    assert!(hundred.progress(80).won);

    let three = ConquestRule::v1(3).unwrap();
    assert_eq!(three.required_control(), 3);
    assert!(!three.progress(2).won);
    assert!(three.progress(3).won);
}

#[test]
fn threshold_math_is_overflow_safe_for_large_maps() {
    let rule = ConquestRule::v1(u64::MAX).unwrap();
    assert_eq!(rule.required_control(), 14_757_395_258_967_641_292);
    assert!(!rule.progress(rule.required_control() - 1).won);
    assert!(rule.progress(rule.required_control()).won);
}

#[test]
fn fixed_denominator_excludes_non_capturable_cells() {
    let mut map = HexMap::new();
    for q in 0..10 {
        let mut cell = Cell::ground(Axial::new(q, 0), 0, Some(if q < 8 { 1 } else { 2 }), 100);
        cell.capturable = true;
        map.insert(cell);
    }
    map.insert(Cell::water(Axial::new(10, 0), 0));

    let progress = ConquestRule::v1(10).unwrap().progress_on_map(&map, 1);
    assert_eq!(progress.controlled, 8);
    assert_eq!(progress.controlled_bps(), 8_000);
    assert!(progress.won);
}

#[test]
fn invalid_rules_are_rejected() {
    assert_eq!(ConquestRule::v1(0), Err(ConquestError::EmptyCapturableMap));
    assert_eq!(
        ConquestRule::new(10, 10_001),
        Err(ConquestError::InvalidThreshold)
    );
}

#[test]
fn more_cells_than_the_map_has_count_as_the_whole_map() {
    let rule = ConquestRule::new(10, 10_000).unwrap();
    assert!(!rule.progress(9).won);
    let beyond = rule.progress(25);
    assert_eq!(beyond.controlled, 10);
    assert!(beyond.won);
    assert!(beyond.controlled * 10_000 >= 10 * 10_000);
}
