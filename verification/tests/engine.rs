use alpha_bleed::batch::{tally_outcomes, BatchCounters};
use alpha_bleed::errors::FixError;
use alpha_bleed::files::is_png_file;
use alpha_bleed::neighbor::{neighbor_coords, neighbors};
use alpha_bleed::pipeline::{fix_raster, Strategy};
use alpha_bleed::raster::Raster;

fn make_raster(width: usize, height: usize, pixels: &[(u8, u8, u8, u8)]) -> Raster {
    assert_eq!(pixels.len(), width * height);
    let mut data = Vec::new();
    for &(r, g, b, a) in pixels {
        data.push(r);
        data.push(g);
        data.push(b);
        data.push(a);
    }
    Raster::try_new(width, height, data).unwrap()
}

fn pixel(r: &Raster, x: usize, y: usize) -> (u8, u8, u8, u8) {
    let i = 4 * (y * r.width + x);
    (r.data[i], r.data[i + 1], r.data[i + 2], r.data[i + 3])
}

fn red_corner_4x4() -> Raster {
    let mut pixels = vec![(0, 0, 0, 0); 16];
    pixels[0] = (255, 0, 0, 255);
    make_raster(4, 4, &pixels)
}

#[test]
fn nearest_fills_all_from_single_red_corner() {
    let mut r = red_corner_4x4();
    fix_raster(&mut r, Strategy::Nearest, false).unwrap();
    assert_eq!(pixel(&r, 0, 0), (255, 0, 0, 255));
    for y in 0..4 {
        for x in 0..4 {
            if (x, y) != (0, 0) {
                assert_eq!(pixel(&r, x, y), (255, 0, 0, 0));
            }
        }
    }
}

#[test]
fn nearest_debug_mode_sets_alpha_opaque() {
    let mut r = red_corner_4x4();
    fix_raster(&mut r, Strategy::Nearest, true).unwrap();
    assert_eq!(pixel(&r, 0, 0), (255, 0, 0, 255));
    for y in 0..4 {
        for x in 0..4 {
            if (x, y) != (0, 0) {
                assert_eq!(pixel(&r, x, y), (255, 0, 0, 255));
            }
        }
    }
}

#[test]
fn nearest_copies_only_border_colors() {
    // A 3x3 block of opaque pixels on the left, transparent on the right:
    // only the rightmost opaque column borders transparency, so only its
    // colors may be copied.
    let mut pixels = vec![(0, 0, 0, 0); 9];
    for y in 0..3 {
        pixels[3 * y] = (10, 10, 10, 255); // interior color, not a border
        pixels[3 * y + 1] = (200, 100, 50, 255); // border column
    }
    let mut r = make_raster(3, 3, &pixels);
    fix_raster(&mut r, Strategy::Nearest, false).unwrap();
    for y in 0..3 {
        let (red, green, blue, alpha) = pixel(&r, 2, y);
        assert_eq!((red, green, blue, alpha), (200, 100, 50, 0));
    }
}

#[test]
fn nearest_tie_breaks_on_first_border_point_in_scan_order() {
    // (1,0) is equidistant from the red and the blue border point; the
    // earlier one in row-major order (the red one) must win.
    let pixels = vec![(255, 0, 0, 255), (0, 0, 0, 0), (0, 0, 255, 255)];
    let mut r = make_raster(3, 1, &pixels);
    fix_raster(&mut r, Strategy::Nearest, false).unwrap();
    assert_eq!(pixel(&r, 1, 0), (255, 0, 0, 0));
}

#[test]
fn flood_fills_all_from_single_red_corner() {
    // Every average ever taken only sees pure red neighbors, so the whole
    // image solidifies to red.
    let mut r = red_corner_4x4();
    fix_raster(&mut r, Strategy::Flood, false).unwrap();
    for y in 0..4 {
        for x in 0..4 {
            assert_eq!(pixel(&r, x, y), (255, 0, 0, 255));
        }
    }
}

#[test]
fn flood_two_corners_blend_between_rings() {
    let mut pixels = vec![(0, 0, 0, 0); 16];
    pixels[0] = (255, 0, 0, 255);
    pixels[15] = (0, 0, 255, 255);
    let mut r = make_raster(4, 4, &pixels);
    fix_raster(&mut r, Strategy::Flood, false).unwrap();
    // The two sources keep their colors; everything ends opaque.
    assert_eq!(pixel(&r, 0, 0), (255, 0, 0, 255));
    assert_eq!(pixel(&r, 3, 3), (0, 0, 255, 255));
    for y in 0..4 {
        for x in 0..4 {
            assert_eq!(pixel(&r, x, y).3, 255);
        }
    }
    // The first staged pixel beside each corner sees only that corner
    // when it is averaged, so it takes the pure corner color.
    assert_eq!(pixel(&r, 1, 0), (255, 0, 0, 255));
    assert_eq!(pixel(&r, 2, 2), (0, 0, 255, 255));
    // A pixel reached by both rings at once takes the truncating integer
    // mean of one red and one blue neighbor.
    assert_eq!(pixel(&r, 2, 1), (127, 0, 127, 255));
}

#[test]
fn flood_is_idempotent_on_its_own_output() {
    let mut pixels = vec![(0, 0, 0, 0); 16];
    pixels[0] = (255, 0, 0, 255);
    pixels[15] = (0, 0, 255, 255);
    let mut r = make_raster(4, 4, &pixels);
    fix_raster(&mut r, Strategy::Flood, false).unwrap();
    let first = r.data.clone();
    // The output is fully opaque, so a second run finds nothing to seed a
    // frontier from and leaves every byte alone.
    let err = fix_raster(&mut r, Strategy::Flood, false).unwrap_err();
    assert_eq!(err, FixError::NoBorderPixels);
    assert_eq!(r.data, first);
}

#[test]
fn flood_fills_transparent_pixels_on_both_sides_of_a_source() {
    // A one-pixel-wide column with a single opaque pixel in the middle:
    // both transparent neighbors must be filled, not just the first one
    // the seeding pass happens to meet.
    let pixels = vec![(9, 9, 9, 0), (255, 0, 0, 255), (9, 9, 9, 0)];
    let mut r = make_raster(1, 3, &pixels);
    fix_raster(&mut r, Strategy::Flood, false).unwrap();
    assert_eq!(pixel(&r, 0, 0), (255, 0, 0, 255));
    assert_eq!(pixel(&r, 0, 1), (255, 0, 0, 255));
    assert_eq!(pixel(&r, 0, 2), (255, 0, 0, 255));
}

#[test]
fn fully_opaque_image_reports_no_border_pixels() {
    let pixels = vec![(1, 2, 3, 255); 4];
    let mut r = make_raster(2, 2, &pixels);
    let before = r.data.clone();
    let err = fix_raster(&mut r, Strategy::Nearest, false).unwrap_err();
    assert_eq!(err, FixError::NoBorderPixels);
    assert_eq!(r.data, before);
}

#[test]
fn fully_transparent_image_reports_no_border_pixels() {
    let pixels = vec![(9, 9, 9, 0); 6];
    let mut r = make_raster(3, 2, &pixels);
    let before = r.data.clone();
    let err = fix_raster(&mut r, Strategy::Flood, false).unwrap_err();
    assert_eq!(err, FixError::NoBorderPixels);
    assert_eq!(r.data, before);
}

#[test]
fn raster_shape_is_validated() {
    assert_eq!(Raster::try_new(0, 2, vec![0; 8]).unwrap_err(), FixError::FormatError);
    assert_eq!(Raster::try_new(2, 0, vec![0; 8]).unwrap_err(), FixError::FormatError);
    assert_eq!(Raster::try_new(2, 2, vec![0; 15]).unwrap_err(), FixError::FormatError);
    assert!(Raster::try_new(2, 2, vec![0; 16]).is_ok());
}

#[test]
fn neighbor_coords_respects_bounds() {
    let corner = neighbor_coords(0, 0, 4, 4);
    assert_eq!(corner, vec![(1, 0), (1, 1), (0, 1)]);
    let center = neighbor_coords(1, 1, 3, 3);
    assert_eq!(center.len(), 8);
    assert!(center.contains(&(0, 0)));
    assert!(center.contains(&(2, 2)));
    let single = neighbor_coords(0, 0, 1, 1);
    assert!(single.is_empty());
}

#[test]
fn neighbors_matches_signed_interface() {
    let out = neighbors(3, 3, 4, 4);
    assert_eq!(out, vec![(2, 2), (3, 2), (2, 3)]);
}

#[test]
fn counters_record_each_outcome_once() {
    let mut c = BatchCounters::new();
    c.record(true);
    c.record(false);
    c.record(true);
    assert_eq!(c.fixed, 2);
    assert_eq!(c.failed, 1);
}

#[test]
fn tally_sums_to_batch_size() {
    let outcomes = vec![true, false, true, true, false];
    let c = tally_outcomes(&outcomes);
    assert_eq!(c.fixed, 3);
    assert_eq!(c.failed, 2);
    assert_eq!(c.fixed + c.failed, outcomes.len());
    let empty = tally_outcomes(&Vec::new());
    assert_eq!(empty.fixed + empty.failed, 0);
}

#[test]
fn png_extension_is_matched_case_insensitively() {
    assert!(is_png_file("sprite.png"));
    assert!(is_png_file("SPRITE.PNG"));
    assert!(is_png_file("a.b.PnG"));
    assert!(!is_png_file("sprite.jpg"));
    assert!(!is_png_file("png"));
    assert!(!is_png_file(".png"));
    assert!(!is_png_file("spritepng"));
}

#[test]
fn error_messages_name_their_cause() {
    assert_eq!(
        FixError::NoBorderPixels.message(),
        "no border pixels between opaque and transparent regions"
    );
    assert_eq!(
        FixError::FormatError.message(),
        "image is not in the supported 8-bit RGBA layout"
    );
    assert_eq!(FixError::EncodeError.message(), "could not encode the repaired image");
    assert_eq!(
        FixError::IndexConstructionError.message(),
        "could not build the border point index"
    );
}
