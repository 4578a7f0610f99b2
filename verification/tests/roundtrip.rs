use alpha_bleed::codec::{decode_raster, encode_raster};
use alpha_bleed::errors::FixError;
use alpha_bleed::pipeline::{repair_png_bytes, Strategy};
use alpha_bleed::raster::Raster;

fn red_corner_raster() -> Raster {
    let mut data = vec![0u8; 64];
    data[0] = 255;
    data[3] = 255;
    Raster::try_new(4, 4, data).unwrap()
}

#[test]
fn encode_then_decode_returns_the_same_pixels() {
    let r = red_corner_raster();
    let bytes = encode_raster(&r).unwrap();
    let back = decode_raster(&bytes).unwrap();
    assert_eq!(back.width, 4);
    assert_eq!(back.height, 4);
    assert_eq!(back.data, r.data);
}

#[test]
fn decode_rejects_garbage_bytes() {
    let err = decode_raster(&vec![1, 2, 3, 4, 5]).unwrap_err();
    assert_eq!(err, FixError::FormatError);
}

#[test]
fn repair_bytes_nearest_end_to_end() {
    let bytes = encode_raster(&red_corner_raster()).unwrap();
    let out = repair_png_bytes(&bytes, Strategy::Nearest, false).unwrap();
    let repaired = decode_raster(&out).unwrap();
    assert_eq!(repaired.width, 4);
    assert_eq!(repaired.height, 4);
    for p in 0..16 {
        let expected_alpha = if p == 0 { 255 } else { 0 };
        assert_eq!(repaired.data[4 * p], 255);
        assert_eq!(repaired.data[4 * p + 1], 0);
        assert_eq!(repaired.data[4 * p + 2], 0);
        assert_eq!(repaired.data[4 * p + 3], expected_alpha);
    }
}

#[test]
fn repair_bytes_flood_end_to_end() {
    let bytes = encode_raster(&red_corner_raster()).unwrap();
    let out = repair_png_bytes(&bytes, Strategy::Flood, false).unwrap();
    let repaired = decode_raster(&out).unwrap();
    for p in 0..16 {
        assert_eq!(repaired.data[4 * p], 255);
        assert_eq!(repaired.data[4 * p + 1], 0);
        assert_eq!(repaired.data[4 * p + 2], 0);
        assert_eq!(repaired.data[4 * p + 3], 255);
    }
}

#[test]
fn repair_bytes_rejects_undecodable_input() {
    let err = repair_png_bytes(&vec![0; 32], Strategy::Nearest, false).unwrap_err();
    assert_eq!(err, FixError::FormatError);
}

#[test]
fn repair_bytes_reports_opaque_image_as_no_op() {
    let opaque = Raster::try_new(2, 2, vec![7u8; 16]).unwrap();
    let bytes = encode_raster(&opaque).unwrap();
    let err = repair_png_bytes(&bytes, Strategy::Flood, false).unwrap_err();
    assert_eq!(err, FixError::NoBorderPixels);
}
