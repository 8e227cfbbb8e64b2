use omnicolor_rust::point_tracker::PointTracker;
use omnicolor_rust::topology::{PixelLoc, RectangularArray, Topology};

#[test]
fn topology_test_index_bounds() {
    let size = RectangularArray { width: 5, height: 10 };
    let layer = 0u8;
    assert!(size.is_valid(PixelLoc { layer, i: 2, j: 3 }));
    assert!(size.is_valid(PixelLoc { layer, i: 4, j: 9 }));
    assert!(size.is_valid(PixelLoc { layer, i: 0, j: 0 }));

    assert!(!size.is_valid(PixelLoc { layer, i: 5, j: 3 }));
    assert!(!size.is_valid(PixelLoc { layer, i: 2, j: 10 }));
    assert!(!size.is_valid(PixelLoc { layer, i: 2, j: 15 }));
    assert!(!size.is_valid(PixelLoc { layer, i: -1, j: 3 }));
    assert!(!size.is_valid(PixelLoc { layer, i: 5, j: -1 }));
    assert!(!size.is_valid(PixelLoc { layer, i: 2, j: -1 }));
    assert!(!size.is_valid(PixelLoc { layer, i: -1, j: -1 }));
}

#[test]
fn topology_test_index_lookup() {
    let size = RectangularArray { width: 5, height: 10 };

    let layer = 0u8;

    assert_eq!(size.get_index(PixelLoc { layer, i: 0, j: 0 }), Some(0));
    assert_eq!(size.get_index(PixelLoc { layer, i: 1, j: 0 }), Some(1));
    assert_eq!(size.get_index(PixelLoc { layer, i: 0, j: 1 }), Some(5));
    assert_eq!(size.get_index(PixelLoc { layer, i: 1, j: 1 }), Some(6));
    assert_eq!(size.get_index(PixelLoc { layer, i: 4, j: 9 }), Some(49));

    assert_eq!(size.get_index(PixelLoc { layer, i: -1, j: 1 }), None);
    assert_eq!(size.get_index(PixelLoc { layer, i: 4, j: 10 }), None);

    assert_eq!(size.get_loc(layer, 0), Some(PixelLoc { layer, i: 0, j: 0 }));
    assert_eq!(size.get_loc(layer, 11), Some(PixelLoc { layer, i: 1, j: 2 }));
    assert_eq!(size.get_loc(layer, 1), Some(PixelLoc { layer, i: 1, j: 0 }));
    assert_eq!(size.get_loc(layer, 50), None);
    assert_eq!(size.get_loc(layer, 500000), None);
}

#[test]
fn test_line_to() {
    let layer = 0u8;

    assert_eq!(
        PixelLoc { layer, i: 0, j: 0 }.line_to(PixelLoc { layer, i: 0, j: 0 }),
        vec![PixelLoc { layer, i: 0, j: 0 }]
    );

    // Vertical line up
    assert_eq!(
        PixelLoc { layer, i: 0, j: 0 }.line_to(PixelLoc { layer, i: 0, j: 3 }),
        vec![
            PixelLoc { layer, i: 0, j: 0 },
            PixelLoc { layer, i: 0, j: 1 },
            PixelLoc { layer, i: 0, j: 2 },
            PixelLoc { layer, i: 0, j: 3 },
        ]
    );

    // Horizontal line right
    assert_eq!(
        PixelLoc { layer, i: 0, j: 0 }.line_to(PixelLoc { layer, i: 3, j: 0 }),
        vec![
            PixelLoc { layer, i: 0, j: 0 },
            PixelLoc { layer, i: 1, j: 0 },
            PixelLoc { layer, i: 2, j: 0 },
            PixelLoc { layer, i: 3, j: 0 },
        ]
    );

    // Diagonal line 1:1
    assert_eq!(
        PixelLoc { layer, i: 0, j: 0 }.line_to(PixelLoc { layer, i: 3, j: 3 }),
        vec![
            PixelLoc { layer, i: 0, j: 0 },
            PixelLoc { layer, i: 1, j: 0 },
            PixelLoc { layer, i: 1, j: 1 },
            PixelLoc { layer, i: 2, j: 1 },
            PixelLoc { layer, i: 2, j: 2 },
            PixelLoc { layer, i: 3, j: 2 },
            PixelLoc { layer, i: 3, j: 3 },
        ]
    );

    // Slope < 1
    assert_eq!(
        PixelLoc { layer, i: 0, j: 0 }.line_to(PixelLoc { layer, i: 3, j: 2 }),
        vec![
            PixelLoc { layer, i: 0, j: 0 },
            PixelLoc { layer, i: 1, j: 0 },
            PixelLoc { layer, i: 2, j: 0 },
            PixelLoc { layer, i: 2, j: 1 },
            PixelLoc { layer, i: 3, j: 1 },
            PixelLoc { layer, i: 3, j: 2 },
        ]
    );

    // Slope > 1
    assert_eq!(
        PixelLoc { layer, i: 0, j: 0 }.line_to(PixelLoc { layer, i: 2, j: 3 }),
        vec![
            PixelLoc { layer, i: 0, j: 0 },
            PixelLoc { layer, i: 1, j: 0 },
            PixelLoc { layer, i: 1, j: 1 },
            PixelLoc { layer, i: 2, j: 1 },
            PixelLoc { layer, i: 2, j: 2 },
            PixelLoc { layer, i: 2, j: 3 },
        ]
    );

    // Off-origin
    assert_eq!(
        PixelLoc { layer, i: 1, j: -1 }.line_to(PixelLoc { layer, i: 3, j: 2 }),
        vec![
            PixelLoc { layer, i: 1, j: -1 },
            PixelLoc { layer, i: 2, j: -1 },
            PixelLoc { layer, i: 2, j: 0 },
            PixelLoc { layer, i: 3, j: 0 },
            PixelLoc { layer, i: 3, j: 1 },
            PixelLoc { layer, i: 3, j: 2 },
        ]
    );
}

#[test]
fn test_topology_index_lookup() {
    let topology = Topology::new(vec![
        RectangularArray { width: 10, height: 10 },
        RectangularArray { width: 5, height: 5 },
    ])
    .unwrap();

    assert_eq!(topology.get_loc(0), Some(PixelLoc { layer: 0, i: 0, j: 0 }));

    assert_eq!(topology.get_loc(100), Some(PixelLoc { layer: 1, i: 0, j: 0 }));
}

#[test]
fn test_topology_round_trip() {
    // every valid flat index maps to a location and back to itself
    let topology = Topology::new(vec![
        RectangularArray { width: 7, height: 3 },
        RectangularArray { width: 4, height: 6 },
        RectangularArray { width: 1, height: 9 },
    ])
    .unwrap();
    let total = topology.len();
    assert_eq!(total, 7 * 3 + 4 * 6 + 9);
    for k in 0..total {
        let loc = topology.get_loc(k).unwrap();
        assert!(topology.is_valid(loc));
        assert_eq!(topology.get_index(loc), Some(k));
    }
    assert_eq!(topology.get_loc(total), None);
    // and every invalid location maps to no index at all
    assert_eq!(topology.get_index(PixelLoc { layer: 3, i: 0, j: 0 }), None);
    assert_eq!(topology.get_index(PixelLoc { layer: 0, i: 7, j: 0 }), None);
    assert_eq!(topology.get_index(PixelLoc { layer: 1, i: -1, j: 2 }), None);
}

#[test]
fn test_portal_adjacency() {
    // filling one end of a portal edge reaches the other end
    let topology = Topology::new(vec![
        RectangularArray { width: 2, height: 2 },
        RectangularArray { width: 2, height: 2 },
    ])
    .unwrap();
    let a = PixelLoc { layer: 0, i: 0, j: 0 };
    let b = PixelLoc { layer: 1, i: 1, j: 1 };
    let mut connected = topology;
    connected.set_portals(&vec![(a, b), (b, a)]);

    let neighbors_of_a = connected.iter_adjacent(a);
    assert_eq!(neighbors_of_a[0], b);
    let neighbors_of_b = connected.iter_adjacent(b);
    assert_eq!(neighbors_of_b[0], a);

    let mut tracker = PointTracker::new(connected);
    tracker.add_to_frontier(a);
    tracker.fill(a);
    let mut found_b = false;
    for p in 0..tracker.frontier_size() {
        if tracker.get_frontier_point(p) == b {
            found_b = true;
        }
    }
    assert!(found_b);
}
