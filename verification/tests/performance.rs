use hex_core::axials::AxialMap;
use hex_core::capture::{
    advance_exit, claim_screenshot_cell, CapturePlan, PerformanceOverlayState, EXIT_DELAY, SETTLE,
    WARMUP,
};
use hex_core::coord::Axial;
use hex_core::map::TerrainKind;
use hex_core::projection::CellView;

#[test]
fn f3_toggles_the_panel_without_enabling_it_by_default() {
    let mut state = PerformanceOverlayState::default();
    assert!(!state.visible);

    state.toggle();
    assert!(state.visible);
    assert!(state.take_refresh(false), "a panel that opens is filled");
    assert!(!state.take_refresh(false));
    assert!(state.take_refresh(true));

    state.toggle();
    assert!(!state.visible);
    assert!(!state.take_refresh(false));
}

#[test]
fn a_picture_is_taken_after_warm_up_and_settling() {
    let mut plan = CapturePlan::new();
    let mut staged = None;
    let mut requested = None;
    for frame in 1..=200 {
        let step = plan.advance();
        if step.stage {
            assert_eq!(staged.replace(frame), None);
        }
        if step.request {
            assert_eq!(requested.replace(frame), None);
        }
    }
    assert_eq!(staged, Some(WARMUP));
    assert_eq!(requested, Some(WARMUP + SETTLE));

    let mut frames = 0;
    let mut waited = 1;
    while !advance_exit(&mut frames) {
        waited += 1;
    }
    assert_eq!(waited, EXIT_DELAY);
}

#[test]
fn a_claimed_cell_holds_no_more_soldiers_than_it_can() {
    let here = Axial::new(4, 0);
    let mut cells = AxialMap::new();
    cells.insert(
        here,
        CellView {
            coordinate: here,
            terrain: TerrainKind::Hills,
            elevation: 2,
            owner: None,
            civilians: 5,
            infantry: 0,
            military_capacity: 30,
            blocked: false,
        },
    );
    claim_screenshot_cell(&mut cells, here, 1, 40);
    claim_screenshot_cell(&mut cells, Axial::new(5, 0), 1, 40);
    let cell = cells.get(here).unwrap();
    assert_eq!((cell.owner, cell.infantry, cell.civilians), (Some(1), 30, 5));
    assert!(!cells.contains(Axial::new(5, 0)));
}
