//! Tests of the assignment grid and the edge resolver.

use voronoi_bleed::voronoi::{seeded_from_alpha, EdgeMode, Voronoi};

#[test]
fn new_grid_is_unseeded() {
    let v = Voronoi::new(3, 2);
    for y in 0..2i64 {
        for x in 0..3i64 {
            assert_eq!(v.get_closest((x, y), EdgeMode::Zero), None);
        }
    }
}

#[test]
fn set_then_get_roundtrip() {
    let mut v = Voronoi::new(3, 2);
    v.set_closest((1, 1), Some((2, 0)));
    assert_eq!(v.get_closest((1, 1), EdgeMode::Zero), Some((2, 0)));
    assert_eq!(v.get_closest((1, 0), EdgeMode::Zero), None);
    v.set_closest((1, 1), None);
    assert_eq!(v.get_closest((1, 1), EdgeMode::Zero), None);
}

#[test]
fn clamp_resolves_to_nearest_edge_cell() {
    let mut v = Voronoi::new(3, 2);
    v.set_closest((0, 0), Some((0, 0)));
    v.set_closest((2, 1), Some((2, 1)));
    assert_eq!(v.get_closest((-5, -7), EdgeMode::Clamp), Some((0, 0)));
    assert_eq!(v.get_closest((10, 1), EdgeMode::Clamp), Some((2, 1)));
    assert_eq!(v.get_closest((1, 5), EdgeMode::Clamp), None);
}

#[test]
fn repeat_wraps_each_axis() {
    let mut v = Voronoi::new(3, 2);
    v.set_closest((2, 1), Some((2, 1)));
    v.set_closest((0, 0), Some((0, 0)));
    // -1 wraps to the last cell of each axis.
    assert_eq!(v.get_closest((-1, -1), EdgeMode::Repeat), Some((2, 1)));
    // One past the end wraps back to the first cell.
    assert_eq!(v.get_closest((3, 2), EdgeMode::Repeat), Some((0, 0)));
    assert_eq!(v.get_closest((-4, -3), EdgeMode::Repeat), Some((2, 1)));
}

#[test]
fn zero_rejects_out_of_bounds() {
    let mut v = Voronoi::new(3, 2);
    v.set_closest((0, 0), Some((0, 0)));
    assert_eq!(v.get_closest((-1, 0), EdgeMode::Zero), None);
    assert_eq!(v.get_closest((3, 0), EdgeMode::Zero), None);
    assert_eq!(v.get_closest((0, -1), EdgeMode::Zero), None);
    assert_eq!(v.get_closest((0, 2), EdgeMode::Zero), None);
    assert_eq!(v.get_closest((0, 0), EdgeMode::Zero), Some((0, 0)));
}

#[test]
fn seeding_threshold_is_strict() {
    assert!(!seeded_from_alpha(0, 0));
    assert!(seeded_from_alpha(1, 0));
    assert!(seeded_from_alpha(255, 0));
    assert!(!seeded_from_alpha(128, 128));
    assert!(seeded_from_alpha(129, 128));
    assert!(!seeded_from_alpha(255, 255));
}

#[test]
fn grid_dimensions() {
    let v = Voronoi::new(7, 4);
    assert_eq!(v.width(), 7);
    assert_eq!(v.height(), 4);
}
