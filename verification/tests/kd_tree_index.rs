use omnicolor_rust::color::RGB;
use omnicolor_rust::kd_tree::KDTree;

fn rgb(r: u8, g: u8, b: u8) -> RGB {
    RGB { vals: [r, g, b] }
}

fn dist2(a: RGB, b: RGB) -> u64 {
    let mut d: u64 = 0;
    for c in 0..3 {
        let x = a.vals[c] as i64 - b.vals[c] as i64;
        d += (x * x) as u64;
    }
    d
}

#[test]
fn test_make_kdtree() {
    let points = vec![rgb(0, 0, 0), rgb(50, 0, 50), rgb(100, 0, 0), rgb(0, 0, 100)];
    let tree = KDTree::new(points);

    assert_eq!(tree.num_points(), 4);
}

#[test]
fn test_leaf_node() {
    // a 5-by-5 grid of colors in the red/green plane, spaced by ten
    let points = (0..25)
        .map(|i| rgb(((i / 5) * 10) as u8, ((i % 5) * 10) as u8, 0))
        .collect::<Vec<_>>();
    let tree = KDTree::new(points);

    assert_eq!(tree.get_closest(&rgb(12, 12, 0), 0, 1).res, Some(rgb(10, 10, 0)));

    assert_eq!(tree.get_closest(&rgb(38, 14, 0), 0, 1).res, Some(rgb(40, 10, 0)));
}

#[test]
fn test_multiple_layers() {
    // enough colors that the index splits through several levels
    let points = (0..10000)
        .map(|i| rgb((i / 100) as u8, (i % 100) as u8, 0))
        .collect::<Vec<_>>();
    let tree = KDTree::new(points);

    assert_eq!(tree.num_points(), 10000);

    assert_eq!(tree.get_closest(&rgb(1, 1, 0), 0, 1).res, Some(rgb(1, 1, 0)));

    assert_eq!(tree.get_closest(&rgb(4, 1, 100), 0, 1).res, Some(rgb(4, 1, 0)));
}

#[test]
fn test_pop_results() {
    let points = (0..10000)
        .map(|i| rgb((i / 100) as u8, (i % 100) as u8, 0))
        .collect::<Vec<_>>();
    let mut tree = KDTree::new(points);

    // the far corner is unique, so it must come out first
    assert_eq!(tree.pop_closest(&rgb(100, 100, 0), 0, 1).res, Some(rgb(99, 99, 0)));

    for _i in 0..9998 {
        assert_ne!(tree.pop_closest(&rgb(100, 100, 0), 0, 1).res, None);
    }

    // popping toward the far corner always leaves the origin for last
    assert_eq!(tree.pop_closest(&rgb(100, 100, 0), 0, 1).res, Some(rgb(0, 0, 0)));

    assert_eq!(tree.pop_closest(&rgb(100, 100, 0), 0, 1).res, None);
}

#[test]
fn test_no_repeat_popping() {
    // popping as many times as there are colors returns each exactly
    // once, and one more pop returns nothing
    let palette: Vec<RGB> = (0..30u8).map(|i| rgb(i * 8, 255 - i * 8, i)).collect();
    let mut tree = KDTree::new(palette.clone());
    let mut seen: Vec<RGB> = Vec::new();
    for step in 0..30u8 {
        // a moving target
        let target = rgb(step * 7, step, 200 - step * 3);
        let popped = tree.pop_closest(&target, 0, 1).res.unwrap();
        assert!(palette.contains(&popped));
        assert!(!seen.contains(&popped));
        seen.push(popped);
    }
    assert_eq!(seen.len(), 30);
    assert_eq!(tree.num_points(), 0);
    assert_eq!(tree.pop_closest(&rgb(0, 0, 0), 0, 1).res, None);
}

#[test]
fn test_exact_nearest_neighbor() {
    // at a zero relaxation the probe matches a brute-force scan
    let mut colors: Vec<RGB> = Vec::new();
    let mut x: u64 = 11;
    for _ in 0..400 {
        x = x.wrapping_mul(6364136223846793005).wrapping_add(1442695040888963407);
        colors.push(rgb((x >> 16) as u8, (x >> 32) as u8, (x >> 48) as u8));
    }
    let tree = KDTree::new(colors.clone());
    let mut y: u64 = 99;
    for _ in 0..50 {
        y = y.wrapping_mul(6364136223846793005).wrapping_add(1442695040888963407);
        let target = rgb((y >> 16) as u8, (y >> 32) as u8, (y >> 48) as u8);
        let found = tree.get_closest(&target, 0, 1).res.unwrap();
        let brute = colors
            .iter()
            .map(|&c| dist2(c, target))
            .min()
            .unwrap();
        assert_eq!(dist2(found, target), brute);
        // ties are resolved consistently: a second probe agrees
        assert_eq!(tree.get_closest(&target, 0, 1).res, Some(found));
    }
}

#[test]
fn test_approximate_probe_stays_in_palette() {
    // with a positive relaxation the result may be a near miss, but it
    // is always a palette member, and an exhausted index reports None
    let colors: Vec<RGB> = (0..60u8).map(|i| rgb(i * 4, i, 255 - i * 2)).collect();
    let tree = KDTree::new(colors.clone());
    for q in 0..20u8 {
        let target = rgb(q * 12, 100, q);
        let found = tree.get_closest(&target, 5, 1).res.unwrap();
        assert!(colors.contains(&found));
    }
    let empty = KDTree::new(Vec::new());
    assert_eq!(empty.get_closest(&rgb(1, 2, 3), 5, 1).res, None);
    assert_eq!(empty.num_points(), 0);

    // popping returns exactly what the read-only probe reported, ties
    // and relaxation included
    let mut tree = KDTree::new(colors);
    for q in 0..10u8 {
        let target = rgb(200 - q * 9, q * 5, 77);
        let probed = tree.get_closest(&target, 3, 2).res;
        assert_eq!(tree.pop_closest(&target, 3, 2).res, probed);
    }
}
