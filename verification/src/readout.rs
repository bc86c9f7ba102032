//! Per-cell readout policies over the final assignment grid: each is a pure
//! function from a cell's coordinate and its resolved seed (or none) to an
//! RGBA pixel value.
//!
//! The UV channel is `round(axis * 255 / dimension)` and the distance value
//! is `255 - round(clamp(distance, 0, 255))` with `distance` the unscaled
//! Euclidean distance; both roundings are computed exactly over integers
//! (round half up, which on these non-negative values is round half away
//! from zero).

use vstd::prelude::*;
use crate::engine::dist2;

verus! {

/// Which readout paints the output.
#[derive(Copy, Clone, PartialEq, Eq, Structural)]
pub enum OutputAs {
    /// The resolved seed cell's color at full opacity; unresolved cells
    /// become fully transparent black.
    Bleed,
    /// Opaque white where a seed resolved, opaque black elsewhere.
    Coverage,
    /// The resolved seed's coordinate, each axis normalized to `[0, 255]`, in
    /// the first two channels; unresolved cells are opaque black.
    UV,
    /// Opaque grayscale `255 - round(clamp(distance, 0, 255))`; unresolved
    /// cells are opaque black.
    Distance,
}

/// `round(a * 255 / d)`, exactly, for `d > 0`: floor of `(a * 255 + d/2)/d`,
/// written over doubled terms so no fraction is lost.
pub open spec fn uv_channel(a: int, d: int) -> int {
    (2 * a * 255 + d) / (2 * d)
}

/// The integer square root: the largest `r` with `r * r <= n`.
pub open spec fn sqrt_floor(n: int) -> int
    decreases n,
{
    if n <= 0 {
        0
    } else {
        let p = sqrt_floor(n - 1);
        if (p + 1) * (p + 1) <= n {
            p + 1
        } else {
            p
        }
    }
}

/// `sqrt(n)` rounded to the nearest integer (no integer `n` lies exactly on
/// a half, so the direction of half-rounding never matters).
pub open spec fn round_sqrt(n: int) -> int {
    let r = sqrt_floor(n);
    if n > r * r + r {
        r + 1
    } else {
        r
    }
}

/// The grayscale distance readout for a cell at `(x, y)` whose resolved seed
/// is `s`.
pub open spec fn dist_value(x: int, y: int, s: (u32, u32)) -> int {
    let rounded = round_sqrt(dist2(x, y, s));
    if rounded > 255 {
        0
    } else {
        255 - rounded
    }
}

/// The integer square root is characterized by its two-sided bound.
pub proof fn lemma_sqrt_floor_props(n: int)
    ensures
        0 <= sqrt_floor(n),
        sqrt_floor(n) * sqrt_floor(n) <= n || n <= 0,
        n < (sqrt_floor(n) + 1) * (sqrt_floor(n) + 1) || n <= 0,
    decreases n,
{
    if n > 0 {
        lemma_sqrt_floor_props(n - 1);
        let p = sqrt_floor(n - 1);
        if n == 1 {
            assert(sqrt_floor(n - 1) == 0);
            assert((sqrt_floor(n - 1) + 1) * (sqrt_floor(n - 1) + 1) <= n) by (nonlinear_arith)
                requires
                    sqrt_floor(n - 1) == 0,
                    n == 1,
            ;
            assert(sqrt_floor(n) == 1);
            assert(n < (1 + 1) * (1 + 1));
        } else {
            assert(p * p <= n - 1 && n - 1 < (p + 1) * (p + 1));
            if (p + 1) * (p + 1) <= n {
                assert(sqrt_floor(n) == p + 1);
                assert(n <= (p + 1) * (p + 1));
                assert((p + 1) * (p + 1) < (p + 1 + 1) * (p + 1 + 1)) by (nonlinear_arith)
                    requires
                        p >= 0,
                ;
            } else {
                assert(sqrt_floor(n) == p);
            }
        }
    }
}

/// Any `r` within the two-sided bound is the integer square root.
pub proof fn lemma_sqrt_floor_unique(n: int, r: int)
    requires
        0 <= r,
        r * r <= n,
        n < (r + 1) * (r + 1),
    ensures
        r == sqrt_floor(n),
{
    lemma_sqrt_floor_props(n);
    let s = sqrt_floor(n);
    if n <= 0 {
        assert(r == 0) by (nonlinear_arith)
            requires
                0 <= r,
                r * r <= n,
                n <= 0,
        ;
    }
    if r < s {
        assert((r + 1) * (r + 1) <= s * s) by (nonlinear_arith)
            requires
                0 <= r < s,
        ;
    } else if s < r {
        assert((s + 1) * (s + 1) <= r * r) by (nonlinear_arith)
            requires
                0 <= s < r,
        ;
    }
}

/// Bleed: copy the seed cell's color at full opacity; cells with no resolved
/// seed become fully transparent black. The caller looks the seed's color up
/// in the source image.
pub fn bleed_pixel(resolved: Option<(u32, u32)>, seed_color: (u8, u8, u8)) -> (px: (u8, u8, u8, u8))
    ensures
        resolved is Some ==> px == (seed_color.0, seed_color.1, seed_color.2, 255u8),
        resolved is None ==> px == (0u8, 0u8, 0u8, 0u8),
{
    match resolved {
        Some(_) => (seed_color.0, seed_color.1, seed_color.2, 255),
        None => (0, 0, 0, 0),
    }
}

/// Coverage: opaque white where a seed resolved, opaque black elsewhere.
pub fn coverage_pixel(resolved: Option<(u32, u32)>) -> (px: (u8, u8, u8, u8))
    ensures
        resolved is Some ==> px == (255u8, 255u8, 255u8, 255u8),
        resolved is None ==> px == (0u8, 0u8, 0u8, 255u8),
{
    match resolved {
        Some(_) => (255, 255, 255, 255),
        None => (0, 0, 0, 255),
    }
}

/// UV: the resolved seed's coordinate, normalized per axis to `[0, 255]`, in
/// the red and green channels; unresolved cells are opaque black.
pub fn uv_pixel(resolved: Option<(u32, u32)>, width: u32, height: u32) -> (px: (u8, u8, u8, u8))
    requires
        0 < width,
        0 < height,
        crate::voronoi::seed_in_bounds(resolved, width as int, height as int),
    ensures
        match resolved {
            Some(s) => px == (
                uv_channel(s.0 as int, width as int) as u8,
                uv_channel(s.1 as int, height as int) as u8,
                0u8,
                255u8,
            ),
            None => px == (0u8, 0u8, 0u8, 255u8),
        },
{
    match resolved {
        Some(s) => (uv_channel_exec(s.0, width), uv_channel_exec(s.1, height), 0, 255),
        None => (0, 0, 0, 255),
    }
}

/// One normalized UV channel: `round(a * 255 / d)` for an in-bounds axis.
fn uv_channel_exec(a: u32, d: u32) -> (r: u8)
    requires
        a < d,
    ensures
        r == uv_channel(a as int, d as int),
{
    let n: u64 = 2 * (a as u64) * 255 + d as u64;
    let q: u64 = n / (2 * (d as u64));
    proof {
        assert(q <= 255) by (nonlinear_arith)
            requires
                a < d,
                0 < d,
                n == 2 * (a as int) * 255 + d,
                q == n as int / (2 * (d as int)),
        ;
    }
    q as u8
}

/// Distance: opaque grayscale `255 - round(clamp(distance, 0, 255))` for the
/// unscaled Euclidean distance between the cell and its resolved seed;
/// unresolved cells are opaque black.
pub fn distance_pixel(x: u32, y: u32, resolved: Option<(u32, u32)>) -> (px: (u8, u8, u8, u8))
    ensures
        match resolved {
            Some(s) => px == (
                dist_value(x as int, y as int, s) as u8,
                dist_value(x as int, y as int, s) as u8,
                dist_value(x as int, y as int, s) as u8,
                255u8,
            ),
            None => px == (0u8, 0u8, 0u8, 255u8),
        },
{
    match resolved {
        Some(s) => {
            let dx: i128 = s.0 as i128 - x as i128;
            let dy: i128 = s.1 as i128 - y as i128;
            proof {
                assert(dx * dx >= 0 && dx * dx < 0x1_0000_0000_0000_0000_0000i128 && dy * dy >= 0
                    && dy * dy < 0x1_0000_0000_0000_0000_0000i128) by (nonlinear_arith)
                    requires
                        -0x1_0000_0000i128 < dx < 0x1_0000_0000i128,
                        -0x1_0000_0000i128 < dy < 0x1_0000_0000i128,
                ;
            }
            let d2: u128 = (dx * dx + dy * dy) as u128;
            let v: u8 = if d2 > 65280 {
                proof {
                    lemma_sqrt_floor_props(d2 as int);
                    let r = sqrt_floor(d2 as int);
                    assert(r >= 255) by (nonlinear_arith)
                        requires
                            r >= 0,
                            d2 > 65280,
                            d2 < (r + 1) * (r + 1),
                    ;
                }
                0
            } else {
                let small: u32 = d2 as u32;
                let r: u32 = isqrt_small(small);
                proof {
                    assert(r * r <= 65025 && r * r + r <= 65280) by (nonlinear_arith)
                        requires
                            r <= 255,
                    ;
                    lemma_sqrt_floor_props(small as int);
                }
                let rounded: u32 = if small > r * r + r {
                    r + 1
                } else {
                    r
                };
                proof {
                    assert(rounded <= 255) by (nonlinear_arith)
                        requires
                            rounded == round_sqrt(small as int),
                            small <= 65280,
                            sqrt_floor(small as int) * sqrt_floor(small as int) <= small as int
                                || small == 0,
                            rounded == sqrt_floor(small as int) || (rounded == sqrt_floor(
                                small as int,
                            ) + 1 && small > sqrt_floor(small as int) * sqrt_floor(small as int)
                                + sqrt_floor(small as int)),
                            sqrt_floor(small as int) >= 0,
                    ;
                }
                255 - (rounded as u8)
            };
            (v, v, v, 255)
        },
        None => (0, 0, 0, 255),
    }
}

/// The readout pixel for one cell under the selected mode. `seed_color` is
/// the source color of the resolved seed cell, looked up by the caller; only
/// `Bleed` reads it.
pub fn readout_pixel(
    mode: OutputAs,
    x: u32,
    y: u32,
    resolved: Option<(u32, u32)>,
    seed_color: (u8, u8, u8),
    width: u32,
    height: u32,
) -> (px: (u8, u8, u8, u8))
    requires
        0 < width,
        0 < height,
        crate::voronoi::seed_in_bounds(resolved, width as int, height as int),
    ensures
        match mode {
            OutputAs::Bleed => px == (match resolved {
                Some(_) => (seed_color.0, seed_color.1, seed_color.2, 255u8),
                None => (0u8, 0u8, 0u8, 0u8),
            }),
            OutputAs::Coverage => px == (match resolved {
                Some(_) => (255u8, 255u8, 255u8, 255u8),
                None => (0u8, 0u8, 0u8, 255u8),
            }),
            OutputAs::UV => px == (match resolved {
                Some(s) => (
                    uv_channel(s.0 as int, width as int) as u8,
                    uv_channel(s.1 as int, height as int) as u8,
                    0u8,
                    255u8,
                ),
                None => (0u8, 0u8, 0u8, 255u8),
            }),
            OutputAs::Distance => px == (match resolved {
                Some(s) => (
                    dist_value(x as int, y as int, s) as u8,
                    dist_value(x as int, y as int, s) as u8,
                    dist_value(x as int, y as int, s) as u8,
                    255u8,
                ),
                None => (0u8, 0u8, 0u8, 255u8),
            }),
        },
{
    match mode {
        OutputAs::Bleed => bleed_pixel(resolved, seed_color),
        OutputAs::Coverage => coverage_pixel(resolved),
        OutputAs::UV => uv_pixel(resolved, width, height),
        OutputAs::Distance => distance_pixel(x, y, resolved),
    }
}

/// The integer square root of a value at most `65280` (so at most `255`).
fn isqrt_small(n: u32) -> (r: u32)
    requires
        n <= 65280,
    ensures
        r == sqrt_floor(n as int),
        r <= 255,
{
    let mut r: u32 = 0;
    loop
        invariant
            n <= 65280,
            r <= 255,
            r * r <= n,
        ensures
            r <= 255,
            r * r <= n,
            n < (r + 1) as int * (r + 1) as int,
        decreases 256 - r,
    {
        proof {
            assert((r + 1) as int * (r + 1) as int <= 65536) by (nonlinear_arith)
                requires
                    r <= 255,
            ;
            assert((r as int + 1) * (r as int + 1) <= 65280 ==> r < 255) by (nonlinear_arith);
        }
        let next: u32 = (r + 1) * (r + 1);
        if next > n {
            break ;
        }
        r = r + 1;
    }
    proof {
        lemma_sqrt_floor_unique(n as int, r as int);
    }
    r
}

} // verus!
