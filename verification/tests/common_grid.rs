use omnicolor_rust::common::{PixelLoc, RectangularArray};

#[test]
fn common_test_index_bounds() {
    let size = RectangularArray { width: 5, height: 10 };
    assert!(size.is_valid(PixelLoc { i: 2, j: 3 }));
    assert!(size.is_valid(PixelLoc { i: 4, j: 9 }));
    assert!(size.is_valid(PixelLoc { i: 0, j: 0 }));

    assert!(!size.is_valid(PixelLoc { i: 5, j: 3 }));
    assert!(!size.is_valid(PixelLoc { i: 2, j: 10 }));
    assert!(!size.is_valid(PixelLoc { i: 2, j: 15 }));
    assert!(!size.is_valid(PixelLoc { i: -1, j: 3 }));
    assert!(!size.is_valid(PixelLoc { i: 5, j: -1 }));
    assert!(!size.is_valid(PixelLoc { i: 2, j: -1 }));
    assert!(!size.is_valid(PixelLoc { i: -1, j: -1 }));
}

#[test]
fn common_test_index_lookup() {
    let size = RectangularArray { width: 5, height: 10 };

    assert_eq!(size.get_index(PixelLoc { i: 0, j: 0 }), Some(0));
    assert_eq!(size.get_index(PixelLoc { i: 1, j: 0 }), Some(1));
    assert_eq!(size.get_index(PixelLoc { i: 0, j: 1 }), Some(5));
    assert_eq!(size.get_index(PixelLoc { i: 1, j: 1 }), Some(6));
    assert_eq!(size.get_index(PixelLoc { i: 4, j: 9 }), Some(49));

    assert_eq!(size.get_index(PixelLoc { i: -1, j: 1 }), None);
    assert_eq!(size.get_index(PixelLoc { i: 4, j: 10 }), None);

    assert_eq!(size.get_loc(0), Some(PixelLoc { i: 0, j: 0 }));
    assert_eq!(size.get_loc(11), Some(PixelLoc { i: 1, j: 2 }));
    assert_eq!(size.get_loc(1), Some(PixelLoc { i: 1, j: 0 }));

    assert_eq!(size.get_loc(50), None);
    assert_eq!(size.get_loc(500000), None);
}
