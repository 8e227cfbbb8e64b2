use omnicolor_rust::color::RGB;
use omnicolor_rust::errors::Error;
use omnicolor_rust::growth_image_builder::{
    resolve_random_seed_count, GrowthImageBuilder, GrowthImageStageBuilder,
};
use omnicolor_rust::topology::PixelLoc;

fn rgb(r: u8, g: u8, b: u8) -> RGB {
    RGB { vals: [r, g, b] }
}

#[test]
fn test_single_stage_fills_whole_canvas() {
    // a 4x4 canvas, one explicit seed, sixteen distinct colors, exact
    // search: every cell is painted exactly once and growth terminates
    let mut builder = GrowthImageBuilder::new();
    builder.add_layer(4, 4);
    builder.epsilon(0, 1);
    builder.seed(42);
    let palette: Vec<RGB> = (0..16u8).map(|i| rgb(i * 16, 255 - i * 16, i)).collect();
    let mut stage = GrowthImageStageBuilder::new();
    stage.palette(palette.clone());
    stage.seed_points(vec![PixelLoc { layer: 0, i: 0, j: 0 }]);
    builder.new_stage(stage);
    let mut image = builder.build().unwrap();

    image.fill_until_done();

    assert!(image.is_done());
    assert_eq!(image.num_filled_pixels(), 16);
    let mut seen: Vec<RGB> = Vec::new();
    for k in 0..16 {
        let c = image.pixel(k).expect("every cell must be painted");
        assert!(palette.contains(&c));
        assert!(!seen.contains(&c));
        seen.push(c);
    }
}

#[test]
fn test_two_stages_split_the_canvas() {
    // stage one is capped at fifty cells with fifty warm colors; stage
    // two grows on from the same frontier with fifty cold colors; no
    // cell is painted by both stages
    let warm: Vec<RGB> = (0..50u8).map(|i| rgb(205 + (i % 50), i, 0)).collect();
    let cold: Vec<RGB> = (0..50u8).map(|i| rgb(0, i, 205 + (i % 50))).collect();

    let mut builder = GrowthImageBuilder::new();
    builder.add_layer(10, 10);
    builder.epsilon(0, 1);
    builder.seed(7);

    let mut stage1 = GrowthImageStageBuilder::new();
    stage1.palette(warm.clone());
    stage1.max_iter(50);
    builder.new_stage(stage1);

    let mut stage2 = GrowthImageStageBuilder::new();
    stage2.palette(cold.clone());
    stage2.grow_from_previous(true);
    builder.new_stage(stage2);

    let mut image = builder.build().unwrap();
    image.fill_until_done();

    assert_eq!(image.num_filled_pixels(), 100);
    let mut warm_count = 0;
    let mut cold_count = 0;
    for k in 0..100 {
        let c = image.pixel(k).expect("every cell must be painted");
        let is_warm = warm.contains(&c);
        let is_cold = cold.contains(&c);
        assert!(is_warm != is_cold);
        if is_warm {
            warm_count += 1;
        } else {
            cold_count += 1;
        }
    }
    assert_eq!(warm_count, 50);
    assert_eq!(cold_count, 50);
}

#[test]
fn test_portal_growth_crosses_layers() {
    // growth seeded on the first layer reaches the second layer only
    // through the portal edge
    let mut builder = GrowthImageBuilder::new();
    builder.add_layer(3, 3);
    builder.add_layer(3, 3);
    builder.epsilon(0, 1);
    builder.seed(3);
    let palette: Vec<RGB> = (0..18u8).map(|i| rgb(i * 14, i, 255 - i * 13)).collect();
    let mut stage = GrowthImageStageBuilder::new();
    stage.palette(palette);
    stage.seed_points(vec![PixelLoc { layer: 0, i: 0, j: 0 }]);
    stage.connected_points(vec![(
        PixelLoc { layer: 0, i: 2, j: 2 },
        PixelLoc { layer: 1, i: 0, j: 0 },
    )]);
    builder.new_stage(stage);
    let mut image = builder.build().unwrap();
    image.fill_until_done();

    // both layers end up fully painted: the portal carried the growth
    assert_eq!(image.num_filled_pixels(), 18);
    for k in 0..18 {
        assert!(image.pixel(k).is_some());
    }
}

#[test]
fn test_forbidden_region_is_left_bare() {
    let mut builder = GrowthImageBuilder::new();
    builder.add_layer(4, 1);
    builder.epsilon(0, 1);
    builder.seed(5);
    let palette: Vec<RGB> = (0..4u8).map(|i| rgb(i * 60, 0, 0)).collect();
    let mut stage = GrowthImageStageBuilder::new();
    stage.palette(palette);
    stage.seed_points(vec![PixelLoc { layer: 0, i: 0, j: 0 }]);
    stage.forbidden_points(vec![PixelLoc { layer: 0, i: 3, j: 0 }]);
    builder.new_stage(stage);
    let mut image = builder.build().unwrap();
    image.fill_until_done();

    assert_eq!(image.num_filled_pixels(), 3);
    assert!(image.pixel(0).is_some());
    assert!(image.pixel(1).is_some());
    assert!(image.pixel(2).is_some());
    assert_eq!(image.pixel(3), None);
}

#[test]
fn test_allowed_region_is_the_only_growth() {
    let mut builder = GrowthImageBuilder::new();
    builder.add_layer(3, 3);
    builder.epsilon(0, 1);
    builder.seed(11);
    let palette: Vec<RGB> = (0..9u8).map(|i| rgb(0, i * 28, 0)).collect();
    let mut stage = GrowthImageStageBuilder::new();
    stage.palette(palette);
    stage.seed_points(vec![PixelLoc { layer: 0, i: 0, j: 0 }]);
    stage.allowed_points(vec![
        PixelLoc { layer: 0, i: 0, j: 0 },
        PixelLoc { layer: 0, i: 1, j: 0 },
        PixelLoc { layer: 0, i: 2, j: 0 },
    ]);
    builder.new_stage(stage);
    let mut image = builder.build().unwrap();
    image.fill_until_done();

    // only the allowed row is painted
    assert_eq!(image.num_filled_pixels(), 3);
    for k in 0..9 {
        let loc = PixelLoc { layer: 0, i: (k % 3) as i32, j: (k / 3) as i32 };
        let idx = image.index_of(loc).unwrap();
        assert_eq!(image.pixel(idx).is_some(), loc.j == 0);
    }
}

#[test]
fn test_adjacent_color_is_the_floored_mean() {
    // on a fully connected 2x2 canvas a bare cell neighbors both painted
    // cells, so its target color is their channel-wise floored mean,
    // whichever cell got which color
    let mut builder = GrowthImageBuilder::new();
    builder.add_layer(2, 2);
    builder.epsilon(0, 1);
    builder.seed(21);
    let mut stage = GrowthImageStageBuilder::new();
    stage.palette(vec![rgb(10, 0, 255), rgb(15, 0, 254)]);
    stage.seed_points(vec![PixelLoc { layer: 0, i: 0, j: 0 }]);
    builder.new_stage(stage);
    let mut image = builder.build().unwrap();
    image.fill_until_done();
    assert_eq!(image.num_filled_pixels(), 2);
    for j in 0..2 {
        for i in 0..2 {
            let loc = PixelLoc { layer: 0, i, j };
            let idx = image.index_of(loc).unwrap();
            if image.pixel(idx).is_none() {
                assert_eq!(image.get_adjacent_color(loc), Some(rgb(12, 0, 254)));
            }
        }
    }
}

#[test]
fn test_build_errors() {
    let builder = GrowthImageBuilder::new();
    assert_eq!(builder.build().err(), Some(Error::NoStagesDefined));

    let mut builder = GrowthImageBuilder::new();
    builder.add_layer(u32::MAX, u32::MAX);
    builder.palette(vec![rgb(1, 2, 3)]);
    assert_eq!(builder.build().err(), Some(Error::CanvasTooLarge));

    let mut builder = GrowthImageBuilder::new();
    builder.palette(vec![rgb(1, 2, 3)]);
    assert_eq!(builder.build().err(), Some(Error::NoLayersDefined));

    let mut builder = GrowthImageBuilder::new();
    builder.add_layer(2, 2);
    builder.new_stage(GrowthImageStageBuilder::new());
    assert_eq!(builder.build().err(), Some(Error::NoPaletteDefined));

    assert_eq!(Error::NoStagesDefined.describe(), "no stages defined");
    assert_eq!(Error::CanvasTooLarge.describe(), "canvas too large");
}

#[test]
fn test_seeding_decision_table() {
    // an explicit request always wins
    assert_eq!(resolve_random_seed_count(Some(4), true, true, Some(true)), 4);
    assert_eq!(resolve_random_seed_count(Some(0), false, true, None), 0);
    // explicit seed cells suppress random seeding
    assert_eq!(resolve_random_seed_count(None, true, true, None), 0);
    assert_eq!(resolve_random_seed_count(None, true, false, Some(false)), 0);
    // the first stage defaults to one random seed
    assert_eq!(resolve_random_seed_count(None, false, true, None), 1);
    // a stage that does not grow from its predecessor also gets one
    assert_eq!(resolve_random_seed_count(None, false, false, Some(false)), 1);
    // later stages that grow on need none
    assert_eq!(resolve_random_seed_count(None, false, false, None), 0);
    assert_eq!(resolve_random_seed_count(None, false, false, Some(true)), 0);
}

#[test]
fn test_rgb_channels() {
    let c = rgb(12, 200, 255);
    assert_eq!(c.r(), 12);
    assert_eq!(c.g(), 200);
    assert_eq!(c.b(), 255);
    assert_eq!(c.get_val(0), 12);
    assert_eq!(c.get_val(1), 200);
    assert_eq!(c.get_val(2), 255);
    assert_eq!(c.dist2(&rgb(12, 200, 255)), 0);
    assert_eq!(rgb(0, 0, 0).dist2(&rgb(255, 255, 255)), 3 * 255 * 255);
    assert_eq!(rgb(1, 2, 3).dist2(&rgb(4, 6, 8)), 9 + 16 + 25);
}

#[test]
fn test_generated_image_data() {
    let mut builder = GrowthImageBuilder::new();
    builder.add_layer(2, 1);
    builder.epsilon(0, 1);
    builder.seed(9);
    let mut stage = GrowthImageStageBuilder::new();
    stage.palette(vec![rgb(10, 20, 30)]);
    stage.seed_points(vec![PixelLoc { layer: 0, i: 0, j: 0 }]);
    builder.new_stage(stage);
    let mut image = builder.build().unwrap();
    image.fill_until_done();

    // one color for two cells: exactly one cell is painted
    assert_eq!(image.num_filled_pixels(), 1);
    let (data, width, height) = image.generated_image_data(0).unwrap();
    assert_eq!(width, 2);
    assert_eq!(height, 1);
    assert_eq!(data.len(), 8);
    let painted: Vec<u8> = vec![10, 20, 30, 255];
    let bare: Vec<u8> = vec![0, 0, 0, 0];
    if data[3] == 255 {
        assert_eq!(&data[0..4], &painted[..]);
        assert_eq!(&data[4..8], &bare[..]);
    } else {
        assert_eq!(&data[0..4], &bare[..]);
        assert_eq!(&data[4..8], &painted[..]);
    }
    assert!(image.generated_image_data(1).is_none());
}
