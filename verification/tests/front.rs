use hex_core::axials::{AxialMap, AxialSet};
use hex_core::coord::Axial;
use hex_core::front::{unique_target_front_edges, DirectedFrontEdge, FrontSelectionError};
use hex_core::local_front::LocalFrontRoute;
use hex_core::perimeter::{
    strategic_front_index_for_seed, StrategicFront, StrategicFrontError,
};
use hex_core::ring::StrategicExterior;
use std::borrow::Borrow;
use std::collections::{BTreeMap, BTreeSet};

fn set_of(cells: &BTreeSet<Axial>) -> AxialSet {
    AxialSet::from_slice(&cells.iter().copied().collect::<Vec<_>>())
}

fn map_of<V: Clone>(map: &AxialMap<V>) -> BTreeMap<Axial, V> {
    map.keys()
        .into_iter()
        .map(|key| (key, map.get(key).unwrap().clone()))
        .collect()
}

fn selected_front_edges(
    sources: &BTreeSet<Axial>,
    direction: Axial,
    eligible: impl Fn(Axial, Axial) -> bool,
) -> Result<Vec<DirectedFrontEdge>, FrontSelectionError> {
    hex_core::front::selected_front_edges(&set_of(sources), direction, eligible)
}

fn selected_all_front_edges(
    sources: &BTreeSet<Axial>,
    eligible: impl Fn(Axial, Axial) -> bool,
) -> Result<Vec<DirectedFrontEdge>, FrontSelectionError> {
    hex_core::front::selected_all_front_edges(&set_of(sources), eligible)
}

fn selected_directional_routes(
    sources: &BTreeSet<Axial>,
    direction: Axial,
    fronts: &BTreeSet<Axial>,
    can_traverse: impl Fn(Axial, Axial) -> bool,
) -> BTreeMap<Axial, Vec<Axial>> {
    map_of(&hex_core::front::selected_directional_routes(
        &set_of(sources),
        direction,
        &set_of(fronts),
        can_traverse,
    ))
}

fn selected_local_front_routes(
    selected: impl IntoIterator<Item = impl Borrow<Axial>>,
    edges: impl IntoIterator<Item = impl Borrow<DirectedFrontEdge>>,
    cost: impl Fn(Axial, Axial) -> Option<u64>,
) -> BTreeMap<Axial, LocalFrontRoute> {
    let selected = selected
        .into_iter()
        .map(|cell| *cell.borrow())
        .collect::<Vec<_>>();
    let edges = edges
        .into_iter()
        .map(|edge| *edge.borrow())
        .collect::<Vec<_>>();
    map_of(&hex_core::local_front::selected_local_front_routes(
        &selected, &edges, cost,
    ))
}

fn strategic_fronts(
    component: impl IntoIterator<Item = Axial>,
    exterior: impl Fn(Axial, Axial) -> StrategicExterior,
) -> Result<Vec<StrategicFront>, StrategicFrontError> {
    hex_core::perimeter::strategic_fronts(
        &component.into_iter().collect::<Vec<_>>(),
        exterior,
    )
}

#[test]
fn deep_cells_feed_the_front_without_exposing_their_sides() {
    let sources = BTreeSet::from([Axial::new(0, 0), Axial::new(1, 0), Axial::new(2, 0)]);
    let edges = selected_front_edges(&sources, Axial::new(1, 0), |_, _| true)
        .expect("the line has one east-facing front");

    assert_eq!(
        edges,
        vec![DirectedFrontEdge {
            source: Axial::new(2, 0),
            target: Axial::new(3, 0),
        }]
    );
}

#[test]
fn directional_routes_never_feed_a_side_lane() {
    let sources = BTreeSet::from([
        Axial::new(0, -1),
        Axial::new(0, 0),
        Axial::new(0, 1),
        Axial::new(1, -1),
        Axial::new(1, 0),
        Axial::new(1, 1),
        Axial::new(2, -1),
        Axial::new(2, 0),
        Axial::new(2, 1),
    ]);
    let fronts = BTreeSet::from([Axial::new(2, -1), Axial::new(2, 0), Axial::new(2, 1)]);

    let routes = selected_directional_routes(&sources, Axial::new(1, 0), &fronts, |_, _| true);

    assert_eq!(
        routes[&Axial::new(0, 0)],
        vec![Axial::new(0, 0), Axial::new(1, 0), Axial::new(2, 0)]
    );
    assert!(routes.values().all(|route| {
        route
            .windows(2)
            .all(|edge| edge[1] - edge[0] == Axial::new(1, 0))
    }));
}

#[test]
fn local_routes_keep_all_six_normals_around_an_enclosed_pocket() {
    let pocket = Axial::new(0, 0);
    let selected = pocket.neighbors().into_iter().collect::<BTreeSet<_>>();
    let edges = selected
        .iter()
        .map(|&source| DirectedFrontEdge {
            source,
            target: pocket,
        })
        .collect::<Vec<_>>();

    let routes = selected_local_front_routes(&selected, &edges, |_, _| Some(1));

    assert_eq!(routes.len(), 6);
    assert_eq!(routes.keys().copied().collect::<BTreeSet<_>>(), selected);
    assert_eq!(
        routes
            .values()
            .map(|route| route.edge.target - route.edge.source)
            .collect::<BTreeSet<_>>(),
        Axial::directions().into_iter().collect()
    );
    for (&source, route) in &routes {
        assert_eq!(route.edge.source, source);
        assert_eq!(route.cells, vec![source, pocket]);
        assert_eq!(route.interior_cost, 0);
    }
}

#[test]
fn deeper_sources_choose_the_nearest_local_arc() {
    let selected = (0..=4).map(|q| Axial::new(q, 0)).collect::<BTreeSet<_>>();
    let west = DirectedFrontEdge {
        source: Axial::new(0, 0),
        target: Axial::new(-1, 0),
    };
    let east = DirectedFrontEdge {
        source: Axial::new(4, 0),
        target: Axial::new(5, 0),
    };

    let routes = selected_local_front_routes(&selected, [east, west], |_, _| Some(1));

    assert_eq!(routes[&Axial::new(0, 0)].edge, west);
    assert_eq!(routes[&Axial::new(1, 0)].edge, west);
    assert_eq!(routes[&Axial::new(2, 0)].edge, west);
    assert_eq!(routes[&Axial::new(2, 0)].interior_cost, 2);
    assert_eq!(routes[&Axial::new(3, 0)].edge, east);
    assert_eq!(routes[&Axial::new(4, 0)].edge, east);
    assert_eq!(
        routes[&Axial::new(2, 0)].cells,
        vec![
            Axial::new(2, 0),
            Axial::new(1, 0),
            Axial::new(0, 0),
            Axial::new(-1, 0),
        ]
    );
}

#[test]
fn local_routes_omit_disconnected_and_cliff_isolated_sources() {
    let rear = Axial::new(0, 0);
    let middle = Axial::new(1, 0);
    let boundary = Axial::new(2, 0);
    let disconnected = Axial::new(10, 0);
    let selected = BTreeSet::from([rear, middle, boundary, disconnected]);
    let edge = DirectedFrontEdge {
        source: boundary,
        target: Axial::new(3, 0),
    };

    let routes = selected_local_front_routes(&selected, [edge], |from, to| {
        if (from, to) == (middle, boundary) {
            Some(7)
        } else {
            None
        }
    });

    assert_eq!(
        routes.keys().copied().collect::<BTreeSet<_>>(),
        BTreeSet::from([middle, boundary])
    );
    assert_eq!(routes[&middle].interior_cost, 7);
    assert_eq!(routes[&middle].cells, vec![middle, boundary, edge.target]);
    assert!(!routes.contains_key(&rear));
    assert!(!routes.contains_key(&disconnected));

    let zero_cost_is_blocked =
        selected_local_front_routes([middle, boundary], [edge], |_, _| Some(0));
    assert_eq!(
        zero_cost_is_blocked.keys().copied().collect::<Vec<_>>(),
        vec![boundary]
    );
}

#[test]
fn local_routes_are_input_order_independent_and_share_corner_edges_fairly() {
    let selected_forward = vec![
        Axial::new(-3, 0),
        Axial::new(-2, 0),
        Axial::new(-1, 0),
        Axial::new(0, 0),
    ];
    let mut selected_reverse = selected_forward.clone();
    selected_reverse.reverse();
    let boundary = Axial::new(0, 0);
    let valid_targets = [Axial::new(1, 0), Axial::new(1, -1), Axial::new(0, -1)];
    let valid_edges = valid_targets
        .into_iter()
        .map(|target| DirectedFrontEdge {
            source: boundary,
            target,
        })
        .collect::<Vec<_>>();
    let mut mixed_edges = vec![
        DirectedFrontEdge {
            source: Axial::new(9, 0),
            target: Axial::new(10, 0),
        },
        DirectedFrontEdge {
            source: boundary,
            target: Axial::new(-1, 0),
        },
        DirectedFrontEdge {
            source: boundary,
            target: Axial::new(2, 0),
        },
    ];
    mixed_edges.extend(valid_edges.iter().copied());
    mixed_edges.push(valid_edges[0]);
    let mut reversed_edges = mixed_edges.clone();
    reversed_edges.reverse();

    let forward = selected_local_front_routes(selected_forward, mixed_edges, |_, _| Some(1));
    let reversed =
        selected_local_front_routes(selected_reverse, reversed_edges, |_, _| Some(1));

    assert_eq!(forward, reversed);
    assert_eq!(forward.len(), 4);
    let mut sorted_targets = valid_targets.to_vec();
    sorted_targets.sort_unstable();
    assert_eq!(
        forward
            .values()
            .map(|route| route.edge.target)
            .collect::<Vec<_>>(),
        vec![
            sorted_targets[0],
            sorted_targets[1],
            sorted_targets[2],
            sorted_targets[0],
        ]
    );
    for route in forward.values() {
        let [.., edge_source, edge_target] = route.cells.as_slice() else {
            panic!("a local route must include its final front edge");
        };
        assert_eq!(
            (*edge_source, *edge_target),
            (route.edge.source, route.edge.target)
        );
        assert!(Axial::directions().contains(&(*edge_target - *edge_source)));
    }
}

#[test]
fn a_wide_front_keeps_every_connected_outward_edge() {
    let sources = BTreeSet::from([
        Axial::new(0, -1),
        Axial::new(0, 0),
        Axial::new(0, 1),
        Axial::new(-1, 0),
    ]);
    let edges = selected_front_edges(&sources, Axial::new(1, 0), |_, _| true)
        .expect("the east-facing boundary is connected");

    assert_eq!(edges.len(), 3);
    assert!(
        edges
            .iter()
            .all(|edge| edge.target == edge.source + Axial::new(1, 0))
    );
}

#[test]
fn disconnected_source_regions_each_contribute_a_directional_front() {
    let sources = BTreeSet::from([Axial::new(0, 0), Axial::new(2, 0)]);
    assert_eq!(
        selected_front_edges(&sources, Axial::new(1, 0), |_, _| true),
        Ok(vec![
            DirectedFrontEdge {
                source: Axial::new(0, 0),
                target: Axial::new(1, 0),
            },
            DirectedFrontEdge {
                source: Axial::new(2, 0),
                target: Axial::new(3, 0),
            },
        ])
    );
}

#[test]
fn separated_eligible_arcs_share_one_connected_source_region() {
    let connected_sources =
        BTreeSet::from([Axial::new(0, -1), Axial::new(0, 0), Axial::new(0, 1)]);
    assert_eq!(
        selected_front_edges(&connected_sources, Axial::new(1, 0), |source, _| source.r
            != 0,),
        Ok(vec![
            DirectedFrontEdge {
                source: Axial::new(0, -1),
                target: Axial::new(1, -1),
            },
            DirectedFrontEdge {
                source: Axial::new(0, 1),
                target: Axial::new(1, 1),
            },
        ])
    );
}

#[test]
fn direction_and_eligibility_are_validated() {
    let source = BTreeSet::from([Axial::new(0, 0)]);
    assert_eq!(
        selected_front_edges(&source, Axial::new(2, 0), |_, _| true),
        Err(FrontSelectionError::InvalidDirection)
    );
    assert_eq!(
        selected_front_edges(&source, Axial::new(1, 0), |_, _| false),
        Err(FrontSelectionError::NoEligibleFront)
    );
}

#[test]
fn all_fronts_include_every_eligible_arc_without_requiring_arc_connectivity() {
    let sources = BTreeSet::from([Axial::new(0, 0), Axial::new(1, 0), Axial::new(2, 0)]);
    let west = Axial::new(-1, 0);
    let east = Axial::new(3, 0);
    let edges =
        selected_all_front_edges(&sources, |_, target| target == west || target == east)
            .expect("opposite boundary arcs are both valid");

    assert_eq!(
        edges,
        vec![
            DirectedFrontEdge {
                source: Axial::new(0, 0),
                target: west,
            },
            DirectedFrontEdge {
                source: Axial::new(2, 0),
                target: east,
            },
        ]
    );
}

#[test]
fn all_fronts_exclude_selected_neighbors_and_rejected_targets() {
    let sources = BTreeSet::from([Axial::new(0, 0), Axial::new(1, 0)]);
    let edges = selected_all_front_edges(&sources, |_, target| target.r == -1)
        .expect("the northern perimeter is eligible");

    assert!(edges.iter().all(|edge| !sources.contains(&edge.target)));
    assert!(edges.iter().all(|edge| edge.target.r == -1));
    assert_eq!(edges.len(), 4);
}

#[test]
fn all_fronts_include_disconnected_source_regions() {
    let disconnected = BTreeSet::from([Axial::new(0, 0), Axial::new(2, 0)]);
    let edges = selected_all_front_edges(&disconnected, |_, _| true)
        .expect("each selected region has an eligible perimeter");
    assert_eq!(edges.len(), 12);
}

#[test]
fn shared_concave_target_gets_one_stable_lane_anchor() {
    let shared = Axial::new(1, 0);
    let high_source = Axial::new(1, -1);
    let low_source = Axial::new(0, 0);
    let other_target = Axial::new(-1, 0);
    let edges = vec![
        DirectedFrontEdge {
            source: high_source,
            target: shared,
        },
        DirectedFrontEdge {
            source: low_source,
            target: other_target,
        },
        DirectedFrontEdge {
            source: low_source,
            target: shared,
        },
    ];

    assert_eq!(
        unique_target_front_edges(&edges),
        vec![
            DirectedFrontEdge {
                source: low_source,
                target: other_target,
            },
            DirectedFrontEdge {
                source: low_source,
                target: shared,
            },
        ]
    );
}

#[test]
fn single_hex_all_neutral_is_one_neutral_front() {
    let component = BTreeSet::from([Axial::new(0, 0)]);
    let fronts =
        strategic_fronts(component, |_, _| StrategicExterior::Neutral).expect("fronts");
    assert_eq!(fronts.len(), 1);
    assert_eq!(fronts[0].opponent, None);
    assert_eq!(fronts[0].edges.len(), 6);
}

#[test]
fn one_hostile_contact_keeps_a_separate_neutral_arc() {
    let component = BTreeSet::from([Axial::new(0, 0)]);
    let enemy = Axial::new(1, 0);
    let fronts = strategic_fronts(component, |_, target| {
        if target == enemy {
            StrategicExterior::Opponent(2)
        } else {
            StrategicExterior::Neutral
        }
    })
    .expect("fronts");
    assert_eq!(fronts.len(), 2);
    let hostile = fronts
        .iter()
        .find(|front| front.opponent == Some(2))
        .expect("hostile front");
    let neutral = fronts
        .iter()
        .find(|front| front.opponent.is_none())
        .expect("neutral front");
    assert_eq!(hostile.edges.len(), 1);
    assert_eq!(hostile.edges[0].target, enemy);
    assert_eq!(neutral.edges.len(), 5);
}

#[test]
fn neutral_gap_bridges_same_opponent_hostile_runs() {
    // Line of three: enemy contacts on both ends face player 7.
    let component = BTreeSet::from([Axial::new(0, 0), Axial::new(1, 0), Axial::new(2, 0)]);
    let left = Axial::new(-1, 0);
    let right = Axial::new(3, 0);
    let fronts = strategic_fronts(component, |_, target| {
        if target == left || target == right {
            StrategicExterior::Opponent(7)
        } else {
            StrategicExterior::Neutral
        }
    })
    .expect("fronts");
    let hostile = fronts
        .iter()
        .filter(|front| front.opponent == Some(7))
        .collect::<Vec<_>>();
    assert_eq!(
        hostile.len(),
        1,
        "same-opponent end contacts must bridge through the neutral sides: {fronts:?}"
    );
    assert!(hostile[0].edges.len() >= 2);
    let left_seed = strategic_front_index_for_seed(&fronts, Axial::new(0, 0))
        .expect("left end belongs to a front");
    let right_seed = strategic_front_index_for_seed(&fronts, Axial::new(2, 0))
        .expect("right end belongs to a front");
    assert_eq!(
        left_seed, right_seed,
        "both end contacts must resolve to the same bridged front index"
    );
    assert_eq!(fronts[left_seed].opponent, Some(7));
    let targets = fronts[left_seed]
        .edges
        .iter()
        .map(|edge| edge.target)
        .collect::<BTreeSet<_>>();
    assert!(targets.contains(&left));
    assert!(targets.contains(&right));
    // Closed-cycle long-way absorption must keep neutral bridge edges.
    assert!(
        fronts[left_seed].edges.len() > 2,
        "bridged front must include neutral perimeter edges, got {fronts:?}"
    );
    assert!(
        fronts[left_seed]
            .edges
            .iter()
            .any(|edge| edge.target != left && edge.target != right),
        "bridged front must contain at least one neutral bridge edge: {fronts:?}"
    );
}

#[test]
fn different_opponents_split_fronts_with_neutral_between() {
    let component = BTreeSet::from([Axial::new(0, 0)]);
    let a = Axial::new(1, 0);
    let b = Axial::new(-1, 0);
    let fronts = strategic_fronts(component, |_, target| {
        if target == a {
            StrategicExterior::Opponent(2)
        } else if target == b {
            StrategicExterior::Opponent(3)
        } else {
            StrategicExterior::Neutral
        }
    })
    .expect("fronts");
    assert!(fronts.iter().any(|front| front.opponent == Some(2)));
    assert!(fronts.iter().any(|front| front.opponent == Some(3)));
    let neutral = fronts
        .iter()
        .filter(|front| front.opponent.is_none())
        .collect::<Vec<_>>();
    assert_eq!(
        neutral.len(),
        2,
        "opposite neutral sections bounded by different hostile fronts must stay independent: {fronts:?}"
    );
    assert!(neutral.iter().all(|front| front.edges.len() == 2));
    // Stable sort: numbered opponents before pure neutral.
    assert!(fronts[0].opponent.is_some());
    assert_eq!(fronts.last().map(|front| front.opponent), Some(None));
}

#[test]
fn strategic_fronts_are_input_order_independent() {
    let cells = [Axial::new(0, 0), Axial::new(1, 0), Axial::new(0, 1)];
    let forward = strategic_fronts(cells, |_, _| StrategicExterior::Neutral).expect("forward");
    let reverse = strategic_fronts(cells.into_iter().rev(), |_, _| StrategicExterior::Neutral)
        .expect("reverse");
    assert_eq!(forward, reverse);
}

#[test]
fn ignored_exterior_edges_are_not_fronts() {
    let component = BTreeSet::from([Axial::new(0, 0)]);
    let ignored = Axial::new(1, 0);
    let fronts = strategic_fronts(component, |_, target| {
        if target == ignored {
            StrategicExterior::Ignored
        } else {
            StrategicExterior::Neutral
        }
    })
    .expect("fronts");
    let edges = fronts
        .iter()
        .flat_map(|front| front.edges.iter())
        .copied()
        .collect::<BTreeSet<_>>();
    assert_eq!(edges.len(), 5);
    assert!(!edges.iter().any(|edge| edge.target == ignored));
    assert_eq!(
        fronts.len(),
        1,
        "all-neutral active chain split by one ignored edge must stay one front: {fronts:?}"
    );
    assert_eq!(fronts[0].opponent, None);
}

#[test]
fn ignored_edge_elsewhere_keeps_same_opponent_neutral_bridge_one_front() {
    // Single hex, DIRECTIONS order:
    // 0 Neutral, 1 Neutral, 2 Opponent(7), 3 Ignored, 4 Opponent(7), 5 Neutral.
    // BTree walk without ignored markers would split the open chain through the
    // multi-edge neutral gap and emit two opponent fronts; the geometric chain
    // Opp@4 - N@5 - N@0 - N@1 - Opp@2 must stay one bridged front.
    let component = BTreeSet::from([Axial::new(0, 0)]);
    let n0 = Axial::new(1, 0);
    let n1 = Axial::new(1, -1);
    let hostile_a = Axial::new(0, -1);
    let ignored = Axial::new(-1, 0);
    let hostile_b = Axial::new(-1, 1);
    let n5 = Axial::new(0, 1);
    let fronts = strategic_fronts(component, |_, target| {
        if target == ignored {
            StrategicExterior::Ignored
        } else if target == hostile_a || target == hostile_b {
            StrategicExterior::Opponent(7)
        } else {
            StrategicExterior::Neutral
        }
    })
    .expect("fronts");

    let hostile = fronts
        .iter()
        .filter(|front| front.opponent == Some(7))
        .collect::<Vec<_>>();
    assert_eq!(
        hostile.len(),
        1,
        "same-opponent stretches separated by neutrals must bridge despite ignored edge elsewhere: {fronts:?}"
    );
    let targets = hostile[0]
        .edges
        .iter()
        .map(|edge| edge.target)
        .collect::<BTreeSet<_>>();
    assert!(targets.contains(&hostile_a));
    assert!(targets.contains(&hostile_b));
    assert!(
        targets.contains(&n0),
        "bridge must include neutral {n0:?}: {targets:?}"
    );
    assert!(
        targets.contains(&n1),
        "bridge must include neutral {n1:?}: {targets:?}"
    );
    assert!(
        targets.contains(&n5),
        "bridge must include neutral {n5:?}: {targets:?}"
    );
    assert!(!targets.contains(&ignored));
    assert_eq!(hostile[0].edges.len(), 5);
    assert!(
        fronts
            .iter()
            .flat_map(|front| front.edges.iter())
            .all(|edge| edge.target != ignored),
        "ignored edges must never appear in fronts: {fronts:?}"
    );

    let neutral = fronts
        .iter()
        .filter(|front| front.opponent.is_none())
        .collect::<Vec<_>>();
    assert_eq!(
        neutral.len(),
        1,
        "all unowned-facing edges must form one neutral front: {fronts:?}"
    );
    let neutral_targets = neutral[0]
        .edges
        .iter()
        .map(|edge| edge.target)
        .collect::<BTreeSet<_>>();
    assert_eq!(neutral_targets, BTreeSet::from([n0, n1, n5]));
    assert!(
        neutral[0]
            .edges
            .iter()
            .all(|edge| hostile[0].edges.contains(edge)),
        "neutral bridge edges must be allowed to belong to both fronts: {fronts:?}"
    );
}

#[test]
fn all_neutral_open_chain_with_ignored_edge_is_one_front() {
    // Ignored in the middle of the direction ring forces an open chain whose
    // BTree start is not adjacent to the ignored edge on both sides.
    let component = BTreeSet::from([Axial::new(0, 0)]);
    let ignored = Axial::new(-1, 0); // DIRECTIONS[3]
    let fronts = strategic_fronts(component, |_, target| {
        if target == ignored {
            StrategicExterior::Ignored
        } else {
            StrategicExterior::Neutral
        }
    })
    .expect("fronts");
    assert_eq!(
        fronts.len(),
        1,
        "all-neutral open chain must remain a single front: {fronts:?}"
    );
    assert_eq!(fronts[0].opponent, None);
    assert_eq!(fronts[0].edges.len(), 5);
    assert!(fronts[0].edges.iter().all(|edge| edge.target != ignored));
}

#[test]
fn empty_component_is_rejected() {
    assert_eq!(
        strategic_fronts(std::iter::empty(), |_, _| StrategicExterior::Neutral),
        Err(StrategicFrontError::EmptyComponent)
    );
}
