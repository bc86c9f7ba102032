//! Tests of the per-cell readout policies.

use voronoi_bleed::readout::{
    bleed_pixel, coverage_pixel, distance_pixel, readout_pixel, uv_pixel, OutputAs,
};

#[test]
fn readout_dispatches_by_mode() {
    assert_eq!(readout_pixel(OutputAs::Bleed, 0, 0, Some((1, 1)), (9, 8, 7), 4, 4), (9, 8, 7, 255));
    assert_eq!(readout_pixel(OutputAs::Bleed, 0, 0, None, (9, 8, 7), 4, 4), (0, 0, 0, 0));
    assert_eq!(readout_pixel(OutputAs::Coverage, 0, 0, None, (9, 8, 7), 4, 4), (0, 0, 0, 255));
    assert_eq!(readout_pixel(OutputAs::UV, 0, 0, Some((2, 1)), (0, 0, 0), 5, 4), (102, 64, 0, 255));
    assert_eq!(
        readout_pixel(OutputAs::Distance, 0, 0, Some((0, 0)), (0, 0, 0), 4, 4),
        (255, 255, 255, 255)
    );
}

#[test]
fn bleed_copies_seed_color_fully_opaque() {
    assert_eq!(bleed_pixel(Some((4, 2)), (10, 20, 30)), (10, 20, 30, 255));
    assert_eq!(bleed_pixel(None, (10, 20, 30)), (0, 0, 0, 0));
}

#[test]
fn coverage_is_white_or_black() {
    assert_eq!(coverage_pixel(Some((0, 0))), (255, 255, 255, 255));
    assert_eq!(coverage_pixel(None), (0, 0, 0, 255));
}

#[test]
fn uv_normalizes_each_axis() {
    // round(2 * 255 / 5) = round(102.0) = 102; round(1 * 255 / 4) =
    // round(63.75) = 64.
    assert_eq!(uv_pixel(Some((2, 1)), 5, 4), (102, 64, 0, 255));
    // round(4 * 255 / 5) = 204; round(3 * 255 / 4) = round(191.25) = 191.
    assert_eq!(uv_pixel(Some((4, 3)), 5, 4), (204, 191, 0, 255));
    assert_eq!(uv_pixel(Some((0, 0)), 5, 4), (0, 0, 0, 255));
    assert_eq!(uv_pixel(None, 5, 4), (0, 0, 0, 255));
}

#[test]
fn distance_zero_renders_full_white() {
    // A cell coincident with its own seed renders value 255.
    assert_eq!(distance_pixel(3, 4, Some((3, 4))), (255, 255, 255, 255));
}

#[test]
fn distance_saturates_at_255() {
    // A seed exactly 255 units away renders 0, as does anything farther.
    assert_eq!(distance_pixel(0, 0, Some((255, 0))), (0, 0, 0, 255));
    assert_eq!(distance_pixel(0, 0, Some((300, 0))), (0, 0, 0, 255));
    assert_eq!(distance_pixel(500, 0, Some((0, 0))), (0, 0, 0, 255));
}

#[test]
fn distance_rounds_euclidean_length() {
    // A 3-4-5 triangle: distance 5 renders 250.
    assert_eq!(distance_pixel(0, 0, Some((3, 4))), (250, 250, 250, 255));
    // Distance sqrt(2) = 1.414... rounds to 1: value 254.
    assert_eq!(distance_pixel(0, 0, Some((1, 1))), (254, 254, 254, 255));
    // Distance sqrt(8) = 2.828... rounds to 3: value 252.
    assert_eq!(distance_pixel(0, 0, Some((2, 2))), (252, 252, 252, 255));
    // One unit short of saturation: distance 254 renders 1.
    assert_eq!(distance_pixel(0, 0, Some((254, 0))), (1, 1, 1, 255));
}

#[test]
fn distance_unresolved_is_opaque_black() {
    assert_eq!(distance_pixel(7, 7, None), (0, 0, 0, 255));
}
