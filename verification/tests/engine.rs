use desktop_logo_core::{
    adjust_opacity, composite_logo, overlay, placement_coords, scale_logo, CompositeError,
    CompositeOptions, Position, Raster,
};

fn opts(position: Position, margin: u32, max_logo_per_mille: u32, opacity_per_mille: u32) -> CompositeOptions {
    CompositeOptions { position, margin, max_logo_per_mille, opacity_per_mille }
}

#[test]
fn basic_composite() {
    let mut base = Raster::solid(800, 600, 10, 20, 30, 255);
    let logo = Raster::solid(200, 100, 200, 50, 50, 255);
    let r = composite_logo(&mut base, &logo, &opts(Position::BottomRight, 50, 200, 800));
    assert!(r.is_ok());
    assert_eq!(base.width, 800);
    assert_eq!(base.height, 600);
}

#[test]
fn scenario_exact_pixels() {
    // Solid base and logo; bottom-right placement with margin 50, the logo
    // scaled to a fifth of the base's shorter side at 0.8 opacity. The
    // resized logo is 120x60 at (630, 490); every touched pixel blends
    // 200 over 10 (and 50 over 20, 50 over 30) at alpha 204/255.
    let mut base = Raster::solid(800, 600, 10, 20, 30, 255);
    let logo = Raster::solid(200, 100, 200, 50, 50, 255);
    let r = composite_logo(&mut base, &logo, &opts(Position::BottomRight, 50, 200, 800));
    assert!(r.is_ok());
    assert_eq!(base.width, 800);
    assert_eq!(base.height, 600);
    let blended = (162, 44, 46, 255);
    assert_eq!(base.get_pixel(630, 490), blended);
    assert_eq!(base.get_pixel(749, 549), blended);
    assert_eq!(base.get_pixel(700, 520), blended);
    // Just outside the logo's footprint the base is untouched.
    let untouched = (10, 20, 30, 255);
    assert_eq!(base.get_pixel(629, 490), untouched);
    assert_eq!(base.get_pixel(630, 489), untouched);
    assert_eq!(base.get_pixel(750, 549), untouched);
    assert_eq!(base.get_pixel(760, 500), untouched);
    assert_eq!(base.get_pixel(0, 0), untouched);
}

#[test]
fn scale_logo_scenario() {
    assert_eq!(scale_logo(200, 100, 800, 600, 200), (120, 60));
    assert_eq!(scale_logo(100, 200, 800, 600, 200), (60, 120));
    assert_eq!(scale_logo(100, 100, 800, 600, 200), (120, 120));
}

#[test]
fn scale_logo_keeps_aspect_within_rounding() {
    // Cross-multiplied, output and input ratios differ by at most half
    // the longer input dimension.
    let (ow, oh) = scale_logo(641, 480, 1920, 1080, 300);
    assert_eq!((ow, oh), (324, 243));
    let cross = (ow as i64 * 480 - oh as i64 * 641).abs();
    assert!(2 * cross <= 641);
}

#[test]
fn scale_logo_floors_to_one_pixel() {
    // A very wide logo: the scaled height rounds to zero and is floored.
    assert_eq!(scale_logo(1000, 1, 800, 600, 200), (120, 1));
    // A tiny fraction on a tiny base still yields at least one pixel.
    assert_eq!(scale_logo(10, 10, 3, 3, 1), (1, 1));
}

#[test]
fn placement_all_corners() {
    assert_eq!(placement_coords(Position::TopLeft, 800, 600, 120, 60, 50), (50, 50));
    assert_eq!(placement_coords(Position::TopRight, 800, 600, 120, 60, 50), (630, 50));
    assert_eq!(placement_coords(Position::BottomLeft, 800, 600, 120, 60, 50), (50, 490));
    assert_eq!(placement_coords(Position::BottomRight, 800, 600, 120, 60, 50), (630, 490));
}

#[test]
fn placement_saturates_at_zero() {
    assert_eq!(placement_coords(Position::TopRight, 100, 100, 50, 50, 200), (0, 200));
    assert_eq!(placement_coords(Position::BottomRight, 100, 100, 150, 150, 0), (0, 0));
    assert_eq!(placement_coords(Position::BottomLeft, 100, 100, 50, 120, 10), (10, 0));
}

#[test]
fn transparent_logo_leaves_base_unchanged() {
    let mut base = Raster::solid(64, 48, 90, 100, 110, 120);
    let before = base.data.clone();
    let logo = Raster::solid(20, 10, 200, 200, 200, 0);
    overlay(&mut base, &logo, 5, 5);
    assert_eq!(base.data, before);
}

#[test]
fn opaque_logo_copies_its_colors() {
    let mut base = Raster::solid(64, 48, 90, 100, 110, 17);
    let logo = Raster::solid(20, 10, 1, 2, 3, 255);
    overlay(&mut base, &logo, 5, 6);
    assert_eq!(base.get_pixel(5, 6), (1, 2, 3, 255));
    assert_eq!(base.get_pixel(24, 15), (1, 2, 3, 255));
    // Outside the footprint nothing changes, not even the alpha.
    assert_eq!(base.get_pixel(4, 6), (90, 100, 110, 17));
    assert_eq!(base.get_pixel(25, 16), (90, 100, 110, 17));
}

#[test]
fn overlay_clips_at_the_edges() {
    let mut base = Raster::solid(10, 10, 0, 0, 0, 255);
    let logo = Raster::solid(4, 4, 255, 255, 255, 255);
    overlay(&mut base, &logo, 8, 8);
    assert_eq!(base.get_pixel(8, 8), (255, 255, 255, 255));
    assert_eq!(base.get_pixel(9, 9), (255, 255, 255, 255));
    assert_eq!(base.get_pixel(7, 8), (0, 0, 0, 255));
    assert_eq!(base.get_pixel(8, 7), (0, 0, 0, 255));
}

#[test]
fn opacity_scaling_is_monotonic() {
    // The same logo at a lower opacity lands closer to the base color.
    let base_color = (10i32, 20i32, 30i32);
    let mut low = Raster::solid(32, 32, 10, 20, 30, 255);
    let mut high = Raster::solid(32, 32, 10, 20, 30, 255);
    let mut logo_low = Raster::solid(8, 8, 200, 50, 50, 255);
    let mut logo_high = Raster::solid(8, 8, 200, 50, 50, 255);
    adjust_opacity(&mut logo_low, 300);
    adjust_opacity(&mut logo_high, 700);
    overlay(&mut low, &logo_low, 0, 0);
    overlay(&mut high, &logo_high, 0, 0);
    let p_low = low.get_pixel(4, 4);
    let p_high = high.get_pixel(4, 4);
    let d_low = [
        (p_low.0 as i32 - base_color.0).abs(),
        (p_low.1 as i32 - base_color.1).abs(),
        (p_low.2 as i32 - base_color.2).abs(),
    ];
    let d_high = [
        (p_high.0 as i32 - base_color.0).abs(),
        (p_high.1 as i32 - base_color.1).abs(),
        (p_high.2 as i32 - base_color.2).abs(),
    ];
    for c in 0..3 {
        assert!(d_low[c] < d_high[c]);
    }
}

#[test]
fn composite_is_deterministic() {
    let logo = Raster::solid(37, 23, 7, 130, 250, 180);
    let params = opts(Position::TopRight, 12, 333, 450);
    let mut first = Raster::solid(100, 80, 60, 61, 62, 255);
    let mut second = Raster::solid(100, 80, 60, 61, 62, 255);
    assert!(composite_logo(&mut first, &logo, &params).is_ok());
    assert!(composite_logo(&mut second, &logo, &params).is_ok());
    assert_eq!(first.data, second.data);
}

#[test]
fn adjust_opacity_exact_values() {
    let mut img = Raster::solid(4, 4, 5, 6, 7, 255);
    adjust_opacity(&mut img, 800);
    assert_eq!(img.get_pixel(0, 0), (5, 6, 7, 204));
    let mut img = Raster::solid(4, 4, 5, 6, 7, 100);
    adjust_opacity(&mut img, 505);
    // 100 * 0.505 = 50.5 rounds half up to 51.
    assert_eq!(img.get_pixel(3, 3), (5, 6, 7, 51));
}

#[test]
fn adjust_opacity_full_is_identity() {
    let mut img = Raster::solid(6, 3, 1, 2, 3, 200);
    let before = img.data.clone();
    adjust_opacity(&mut img, 1000);
    assert_eq!(img.data, before);
}

#[test]
fn invalid_parameters_are_rejected() {
    let logo = Raster::solid(10, 10, 0, 0, 0, 255);
    let mut base = Raster::solid(20, 20, 1, 1, 1, 255);
    let before = base.data.clone();
    let r = composite_logo(&mut base, &logo, &opts(Position::TopLeft, 0, 200, 1001));
    assert_eq!(r, Err(CompositeError::InvalidParameter));
    let r = composite_logo(&mut base, &logo, &opts(Position::TopLeft, 0, 0, 500));
    assert_eq!(r, Err(CompositeError::InvalidParameter));
    let r = composite_logo(&mut base, &logo, &opts(Position::TopLeft, 0, 1001, 500));
    assert_eq!(r, Err(CompositeError::InvalidParameter));
    assert_eq!(base.data, before);
}

#[test]
fn empty_rasters_are_rejected() {
    let logo = Raster::solid(10, 10, 0, 0, 0, 255);
    let empty_logo = Raster { width: 0, height: 5, data: Vec::new() };
    let mut base = Raster::solid(20, 20, 1, 1, 1, 255);
    let before = base.data.clone();
    let r = composite_logo(&mut base, &empty_logo, &opts(Position::TopLeft, 0, 200, 500));
    assert_eq!(r, Err(CompositeError::EmptyRaster));
    assert_eq!(base.data, before);
    let mut empty_base = Raster { width: 7, height: 0, data: Vec::new() };
    let r = composite_logo(&mut empty_base, &logo, &opts(Position::TopLeft, 0, 200, 500));
    assert_eq!(r, Err(CompositeError::EmptyRaster));
    // Parameter validation comes first.
    let r = composite_logo(&mut empty_base, &logo, &opts(Position::TopLeft, 0, 0, 500));
    assert_eq!(r, Err(CompositeError::InvalidParameter));
}
