use hex_core::coord::{Axial, ChunkAddress, ChunkCoord, HexDirection, HexEdge};

#[test]
fn cube_coordinates_keep_the_zero_sum_invariant() {
    for q in -20..=20 {
        for r in -20..=20 {
            assert!(Axial::new(q, r).cube().is_valid());
        }
    }
}

#[test]
fn all_neighbors_are_symmetric_and_one_step_away() {
    for q in -10..=10 {
        for r in -10..=10 {
            let origin = Axial::new(q, r);
            for direction in HexDirection::ALL {
                let neighbor = origin.neighbor(direction);
                assert_eq!(origin.distance(neighbor), 1);
                assert_eq!(neighbor.neighbor(direction.opposite()), origin);
            }
        }
    }
}

#[test]
fn distance_is_symmetric_and_obeys_triangle_inequality() {
    let points = [
        Axial::new(-7, 2),
        Axial::new(0, 0),
        Axial::new(4, -9),
        Axial::new(12, 8),
    ];
    for a in points {
        for b in points {
            assert_eq!(a.distance(b), b.distance(a));
            for c in points {
                assert!(a.distance(c) <= a.distance(b) + b.distance(c));
            }
        }
    }
}

#[test]
fn chunk_address_round_trips_across_negative_boundaries() {
    for chunk_size in [1, 2, 7, 16, 31] {
        for q in -65..=65 {
            for r in -65..=65 {
                let coordinate = Axial::new(q, r);
                let address = coordinate.chunk_address(chunk_size).unwrap();
                assert!(address.local_q < chunk_size);
                assert!(address.local_r < chunk_size);
                assert_eq!(address.to_axial(chunk_size), Some(coordinate));
            }
        }
    }
}

#[test]
fn hex_edges_round_trip_and_reject_non_canonical_input() {
    let edge = HexEdge::new(Axial::new(1, 0), Axial::new(0, 0)).unwrap();
    assert_eq!(edge.a, Axial::new(0, 0), "constructor canonicalizes order");
    assert_eq!(HexEdge::try_from(edge.a, edge.b).unwrap(), edge);

    let error = HexEdge::try_from(Axial::new(1, 0), Axial::new(0, 0)).unwrap_err();
    assert!(error.contains("canonical"), "{error}");
    assert_eq!(
        error,
        "hex edge is not in canonical a <= b order: Axial { q: 1, r: 0 } and Axial { q: 0, r: 0 }"
    );

    let error = HexEdge::try_from(Axial::new(0, 0), Axial::new(2, 0)).unwrap_err();
    assert!(error.contains("not adjacent"), "{error}");
}

#[test]
fn invalid_chunks_are_rejected() {
    assert_eq!(Axial::new(0, 0).chunk_address(0), None);
    let address = ChunkAddress {
        chunk: ChunkCoord { q: 0, r: 0 },
        local_q: 16,
        local_r: 0,
    };
    assert_eq!(address.to_axial(16), None);
}
