//! Tests of the propagation engine: radius and round count, coverage,
//! the single-seed case, determinism, and the tie-break order.

use voronoi_bleed::engine::{initial_radius, num_rounds, propagate, propagate_round};
use voronoi_bleed::voronoi::{EdgeMode, Voronoi};

fn seeded_grid(width: u32, height: u32, seeds: &[(u32, u32)]) -> Voronoi {
    let mut v = Voronoi::new(width, height);
    for &s in seeds {
        v.set_closest(s, Some(s));
    }
    v
}

#[test]
fn radius_for_five_is_four() {
    // 2^ceil(log2(5)) = 8, halved: 4; the rounds then use radii 4, 2, 1.
    assert_eq!(initial_radius(5), 4);
    assert_eq!(num_rounds(4), 3);
}

#[test]
fn radius_edge_values() {
    assert_eq!(initial_radius(1), 0);
    assert_eq!(initial_radius(2), 1);
    assert_eq!(initial_radius(3), 2);
    assert_eq!(initial_radius(4), 2);
    assert_eq!(initial_radius(8), 4);
    assert_eq!(initial_radius(9), 8);
    assert_eq!(num_rounds(0), 1);
    assert_eq!(num_rounds(1), 1);
    assert_eq!(num_rounds(8), 4);
}

#[test]
fn single_seed_wins_everywhere() {
    // The trivial Voronoi case: with exactly one seed, every cell of the
    // grid resolves to it, under every edge mode.
    for mode in [EdgeMode::Clamp, EdgeMode::Repeat, EdgeMode::Zero] {
        let v = seeded_grid(5, 5, &[(2, 3)]);
        let out = propagate(v, mode);
        for y in 0..5i64 {
            for x in 0..5i64 {
                assert_eq!(out.get_closest((x, y), mode), Some((2, 3)));
            }
        }
    }
}

#[test]
fn corner_seed_covers_grid() {
    // With at least one seed, every cell resolves to some seed after
    // propagation, under Clamp and Repeat (and Zero as well: a sample path
    // through in-bounds cells always exists).
    for mode in [EdgeMode::Clamp, EdgeMode::Repeat, EdgeMode::Zero] {
        let v = seeded_grid(4, 3, &[(0, 0)]);
        let out = propagate(v, mode);
        for y in 0..3i64 {
            for x in 0..4i64 {
                assert_eq!(out.get_closest((x, y), mode), Some((0, 0)));
            }
        }
    }
}

#[test]
fn unseeded_grid_stays_unseeded() {
    // No assignment can appear from nowhere: with no seed at all, every cell
    // still resolves to none after propagation.
    for mode in [EdgeMode::Clamp, EdgeMode::Repeat, EdgeMode::Zero] {
        let v = Voronoi::new(4, 4);
        let out = propagate(v, mode);
        for y in 0..4i64 {
            for x in 0..4i64 {
                assert_eq!(out.get_closest((x, y), mode), None);
            }
        }
    }
}

#[test]
fn two_seeds_deterministic() {
    // Two runs over identical input grids and the same edge mode yield
    // bit-identical output grids.
    for mode in [EdgeMode::Clamp, EdgeMode::Repeat, EdgeMode::Zero] {
        let out1 = propagate(seeded_grid(8, 8, &[(1, 1), (6, 6)]), mode);
        let out2 = propagate(seeded_grid(8, 8, &[(1, 1), (6, 6)]), mode);
        for y in 0..8i64 {
            for x in 0..8i64 {
                assert_eq!(out1.get_closest((x, y), mode), out2.get_closest((x, y), mode));
            }
        }
    }
}

#[test]
fn two_seeds_split_the_grid() {
    // Cells near each seed resolve to that seed; the boundary between the
    // two regions approximates the perpendicular bisector.
    let out = propagate(seeded_grid(8, 8, &[(1, 1), (6, 6)]), EdgeMode::Clamp);
    // Each seed cell resolves to itself.
    assert_eq!(out.get_closest((1, 1), EdgeMode::Clamp), Some((1, 1)));
    assert_eq!(out.get_closest((6, 6), EdgeMode::Clamp), Some((6, 6)));
    assert_eq!(out.get_closest((0, 0), EdgeMode::Clamp), Some((1, 1)));
    assert_eq!(out.get_closest((2, 1), EdgeMode::Clamp), Some((1, 1)));
    assert_eq!(out.get_closest((7, 7), EdgeMode::Clamp), Some((6, 6)));
    assert_eq!(out.get_closest((5, 6), EdgeMode::Clamp), Some((6, 6)));
}

#[test]
fn tie_breaks_keep_first_enumerated_direction() {
    // The cell between two equidistant seeds takes the seed sampled earlier
    // in the fixed enumeration order: the left (negative-horizontal) sample
    // comes before the right one.
    for mode in [EdgeMode::Clamp, EdgeMode::Zero] {
        let out = propagate(seeded_grid(3, 1, &[(0, 0), (2, 0)]), mode);
        assert_eq!(out.get_closest((1, 0), mode), Some((0, 0)));
    }
    // Under Repeat the earlier-enumerated left sample wraps around the edge
    // and reaches the right seed, so that seed wins the tie instead.
    let out = propagate(seeded_grid(3, 1, &[(0, 0), (2, 0)]), EdgeMode::Repeat);
    assert_eq!(out.get_closest((1, 0), EdgeMode::Repeat), Some((2, 0)));
}

#[test]
fn tie_breaks_vertical_before_horizontal() {
    // In a single round at radius 1, a cell equidistant from a seed above
    // (a vertical-cardinal sample) and a seed to its left (a horizontal one)
    // keeps the vertical seed: it is enumerated first.
    let read = seeded_grid(3, 3, &[(1, 0), (0, 1)]);
    let mut write = Voronoi::new(3, 3);
    propagate_round(&read, &mut write, 1, EdgeMode::Zero);
    assert_eq!(write.get_closest((1, 1), EdgeMode::Zero), Some((1, 0)));
}

#[test]
fn center_sample_beats_equidistant_neighbors() {
    // A cell that already holds its own seed keeps it: the center sample is
    // enumerated before every other candidate at equal distance.
    let read = seeded_grid(3, 1, &[(0, 0), (1, 0), (2, 0)]);
    let mut write = Voronoi::new(3, 1);
    propagate_round(&read, &mut write, 1, EdgeMode::Clamp);
    assert_eq!(write.get_closest((1, 0), EdgeMode::Clamp), Some((1, 0)));
}

#[test]
fn round_without_candidates_keeps_prior_value() {
    // A cell whose nine samples all come back empty is not overwritten: the
    // write grid's prior value carries forward.
    let read = Voronoi::new(3, 1);
    let mut write = Voronoi::new(3, 1);
    write.set_closest((1, 0), Some((1, 0)));
    propagate_round(&read, &mut write, 1, EdgeMode::Zero);
    assert_eq!(write.get_closest((1, 0), EdgeMode::Zero), Some((1, 0)));
    assert_eq!(write.get_closest((0, 0), EdgeMode::Zero), None);
}

#[test]
fn one_by_one_grid() {
    // The smallest grid: radius 0, a single round, the cell samples itself.
    let out = propagate(seeded_grid(1, 1, &[(0, 0)]), EdgeMode::Zero);
    assert_eq!(out.get_closest((0, 0), EdgeMode::Zero), Some((0, 0)));
}
