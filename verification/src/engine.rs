//! The jump-flooding propagation engine: per-round candidate gathering at a
//! fixed offset pattern, distance comparison with a flat diagonal weight, and
//! the shrinking-radius round loop over two role-swapping grids.
//!
//! Distances are compared exactly: a candidate at squared Euclidean distance
//! `d2` sampled through an axis-aligned offset competes with weight 1, one
//! sampled through a diagonal offset with weight 2 (the square of the flat
//! `sqrt(2)` multiplier), so `d2 * weight` orders candidates exactly as the
//! weighted Euclidean distances do.

use vstd::prelude::*;
use crate::voronoi::{EdgeMode, Voronoi, lookup, index_of, lemma_index_bound, seed_in_bounds};

verus! {

/// The fixed sample pattern, in enumeration order: the cell itself, the two
/// vertical cardinals, the two horizontal cardinals, then the four diagonals.
/// Each entry is the per-axis sign of the offset, to be scaled by the radius.
pub open spec fn sample_offset(i: int) -> (int, int) {
    if i == 0 {
        (0, 0)
    } else if i == 1 {
        (0, -1)
    } else if i == 2 {
        (0, 1)
    } else if i == 3 {
        (-1, 0)
    } else if i == 4 {
        (1, 0)
    } else if i == 5 {
        (-1, -1)
    } else if i == 6 {
        (-1, 1)
    } else if i == 7 {
        (1, -1)
    } else {
        (1, 1)
    }
}

/// The squared distance weight of a sample: 1 for the center and the
/// cardinals, 2 (the square of the flat diagonal multiplier) for diagonals.
pub open spec fn sample_weight2(i: int) -> int {
    if i < 5 {
        1
    } else {
        2
    }
}

/// Squared Euclidean distance from `(x, y)` to the candidate seed `s`.
pub open spec fn dist2(x: int, y: int, s: (u32, u32)) -> int {
    (s.0 - x) * (s.0 - x) + (s.1 - y) * (s.1 - y)
}

/// The assignment sample `i` reads for cell `(x, y)` at the given radius.
pub open spec fn sample_at(
    cells: Seq<Option<(u32, u32)>>,
    w: int,
    h: int,
    mode: EdgeMode,
    x: int,
    y: int,
    radius: int,
    i: int,
) -> Option<(u32, u32)> {
    lookup(cells, w, h, mode, x + sample_offset(i).0 * radius, y + sample_offset(i).1 * radius)
}

/// The best candidate (and its weighted squared distance) among the first `n`
/// samples: strictly smaller weighted distance replaces the incumbent, so on
/// ties the earlier-enumerated sample wins.
pub open spec fn best_upto(
    cells: Seq<Option<(u32, u32)>>,
    w: int,
    h: int,
    mode: EdgeMode,
    x: int,
    y: int,
    radius: int,
    n: int,
) -> Option<((u32, u32), int)>
    decreases n,
{
    if n <= 0 {
        None
    } else {
        let prev = best_upto(cells, w, h, mode, x, y, radius, n - 1);
        match sample_at(cells, w, h, mode, x, y, radius, n - 1) {
            Some(s) => {
                let d = dist2(x, y, s) * sample_weight2(n - 1);
                match prev {
                    Some(b) => if d < b.1 {
                        Some((s, d))
                    } else {
                        Some(b)
                    },
                    None => Some((s, d)),
                }
            },
            None => prev,
        }
    }
}

/// What one round writes for cell `(x, y)`: the winning candidate among all
/// nine samples, or nothing when every sample came back empty.
pub open spec fn cell_result(
    cells: Seq<Option<(u32, u32)>>,
    w: int,
    h: int,
    mode: EdgeMode,
    x: int,
    y: int,
    radius: int,
) -> Option<(u32, u32)> {
    match best_upto(cells, w, h, mode, x, y, radius, 9) {
        Some(b) => Some(b.0),
        None => None,
    }
}

/// One full round: every cell of the write grid receives its winning
/// candidate; a cell with no candidate keeps the write grid's prior value.
pub open spec fn round_spec(
    read: Seq<Option<(u32, u32)>>,
    write_old: Seq<Option<(u32, u32)>>,
    w: int,
    h: int,
    mode: EdgeMode,
    radius: int,
) -> Seq<Option<(u32, u32)>> {
    Seq::new(
        (w * h) as nat,
        |i: int|
            match cell_result(read, w, h, mode, i % w, i / w, radius) {
                Some(c) => Some(c),
                None => write_old[i],
            },
    )
}

/// An in-bounds index decomposes into its grid coordinate.
pub proof fn lemma_idx_decompose(idx: int, w: int, h: int)
    requires
        0 < w,
        0 < h,
        0 <= idx < w * h,
    ensures
        0 <= idx % w < w,
        0 <= idx / w < h,
        index_of(idx % w, idx / w, w) == idx,
{
    assert(0 <= idx % w < w && 0 <= idx / w < h && (idx / w) * w + idx % w == idx)
        by (nonlinear_arith)
        requires
            0 < w,
            0 < h,
            0 <= idx < w * h,
    ;
}

/// Performs one propagation round at the given radius, reading only `read`
/// and writing every cell with a winning candidate into `write`.
pub fn propagate_round(read: &Voronoi, write: &mut Voronoi, radius: u64, edge_mode: EdgeMode)
    requires
        read.wf(),
        old(write).wf(),
        old(write).spec_width() == read.spec_width(),
        old(write).spec_height() == read.spec_height(),
        radius < 0x1_0000_0000u64,
    ensures
        final(write).wf(),
        final(write).spec_width() == read.spec_width(),
        final(write).spec_height() == read.spec_height(),
        final(write).cells() == round_spec(
            read.cells(),
            old(write).cells(),
            read.spec_width(),
            read.spec_height(),
            edge_mode,
            radius as int,
        ),
{
    let w: u32 = read.width();
    let h: u32 = read.height();
    let total: u32 = w * h;
    let ghost target = round_spec(
        read.cells(),
        old(write).cells(),
        w as int,
        h as int,
        edge_mode,
        radius as int,
    );
    let mut idx: u32 = 0;
    while idx < total
        invariant
            read.wf(),
            write.wf(),
            write.spec_width() == w as int,
            write.spec_height() == h as int,
            read.spec_width() == w as int,
            read.spec_height() == h as int,
            total == w * h,
            radius < 0x1_0000_0000u64,
            idx <= total,
            target == round_spec(
                read.cells(),
                old(write).cells(),
                w as int,
                h as int,
                edge_mode,
                radius as int,
            ),
            target.len() == total,
            forall|k: int| 0 <= k < idx ==> write.cells()[k] == target[k],
            forall|k: int| idx <= k < total ==> write.cells()[k] == old(write).cells()[k],
        decreases total - idx,
    {
        proof {
            lemma_idx_decompose(idx as int, w as int, h as int);
        }
        let x: u32 = idx % w;
        let y: u32 = idx / w;
        let best = best_candidate(read, x, y, radius, edge_mode);
        proof {
            assert(target[idx as int] == match cell_result(
                read.cells(),
                w as int,
                h as int,
                edge_mode,
                x as int,
                y as int,
                radius as int,
            ) {
                Some(c) => Some(c),
                None => write.cells()[idx as int],
            });
        }
        match best {
            Some(c) => {
                write.set_closest((x, y), Some(c));
            },
            None => {},
        }
        idx = idx + 1;
    }
    proof {
        assert(write.cells() =~= target);
    }
}

/// Gathers the nine samples for cell `(x, y)` and selects the winner by
/// strictly smaller weighted squared distance, first-seen winning ties.
fn best_candidate(read: &Voronoi, x: u32, y: u32, radius: u64, edge_mode: EdgeMode) -> (r: Option<
    (u32, u32),
>)
    requires
        read.wf(),
        x < read.spec_width(),
        y < read.spec_height(),
        radius < 0x1_0000_0000u64,
    ensures
        r == cell_result(
            read.cells(),
            read.spec_width(),
            read.spec_height(),
            edge_mode,
            x as int,
            y as int,
            radius as int,
        ),
        seed_in_bounds(r, read.spec_width(), read.spec_height()),
{
    let radius_i: i64 = radius as i64;
    let mut best: Option<((u32, u32), u128)> = None;
    let mut i: usize = 0;
    while i < 9
        invariant
            read.wf(),
            x < read.spec_width(),
            y < read.spec_height(),
            radius < 0x1_0000_0000u64,
            radius_i == radius as i64,
            i <= 9,
            match (
                best,
                best_upto(
                    read.cells(),
                    read.spec_width(),
                    read.spec_height(),
                    edge_mode,
                    x as int,
                    y as int,
                    radius as int,
                    i as int,
                ),
            ) {
                (Some(b), Some(sb)) => b.0 == sb.0 && b.1 as int == sb.1 && seed_in_bounds(
                    Some(b.0),
                    read.spec_width(),
                    read.spec_height(),
                ),
                (None, None) => true,
                _ => false,
            },
        decreases 9 - i,
    {
        let ((ox, oy), w2) = offset_at(i);
        proof {
            assert(-1 <= sample_offset(i as int).0 <= 1 && -1 <= sample_offset(i as int).1 <= 1);
        }
        let qx: i64 = x as i64 + ox * radius_i;
        let qy: i64 = y as i64 + oy * radius_i;
        let sample = read.get_closest((qx, qy), edge_mode);
        proof {
            assert(qx as int == x + sample_offset(i as int).0 * (radius as int));
            assert(qy as int == y + sample_offset(i as int).1 * (radius as int));
        }
        proof {
            crate::voronoi::lemma_lookup_from_cells(
                read.cells(),
                read.spec_width(),
                read.spec_height(),
                edge_mode,
                qx as int,
                qy as int,
            );
        }
        match sample {
            Some(s) => {
                let dx: i128 = s.0 as i128 - x as i128;
                let dy: i128 = s.1 as i128 - y as i128;
                proof {
                    assert(dx * dx >= 0 && dx * dx < 0x1_0000_0000_0000_0000_0000i128
                        && dy * dy >= 0 && dy * dy < 0x1_0000_0000_0000_0000_0000i128)
                        by (nonlinear_arith)
                        requires
                            -0x1_0000_0000i128 < dx < 0x1_0000_0000i128,
                            -0x1_0000_0000i128 < dy < 0x1_0000_0000i128,
                    ;
                }
                proof {
                    assert(1 <= sample_weight2(i as int) <= 2);
                }
                let d2: u128 = ((dx * dx + dy * dy) as u128) * (w2 as u128);
                proof {
                    assert(d2 as int == dist2(x as int, y as int, s) * sample_weight2(i as int));
                }
                best = match best {
                    Some(b) => if d2 < b.1 {
                        Some((s, d2))
                    } else {
                        Some(b)
                    },
                    None => Some((s, d2)),
                };
            },
            None => {},
        }
        i = i + 1;
    }
    match best {
        Some(b) => Some(b.0),
        None => None,
    }
}

/// Holds when `p` is a power of two.
pub open spec fn is_pow2(p: int) -> bool
    decreases p,
{
    if p < 1 {
        false
    } else if p == 1 {
        true
    } else {
        p % 2 == 0 && is_pow2(p / 2)
    }
}

/// Doubles `p` until it reaches `m`: starting from 1 this yields the smallest
/// power of two that is at least `m`.
pub open spec fn grow_pow2(p: int, m: int) -> int
    decreases (if m - p >= 0 {
        m - p
    } else {
        0
    }),
{
    if p < 1 || p >= m {
        p
    } else {
        grow_pow2(2 * p, m)
    }
}

/// The initial search radius: the smallest power of two at least `m`
/// (the larger grid dimension), halved.
pub open spec fn spec_initial_radius(m: int) -> int {
    grow_pow2(1, m) / 2
}

/// How many rounds a run starting at the given radius performs: the radius
/// halves after each round and the round at radius 1 (or 0) still runs.
pub open spec fn spec_num_rounds(radius: int) -> int
    decreases radius,
{
    if radius <= 1 {
        1
    } else {
        1 + spec_num_rounds(radius / 2)
    }
}

/// Growing from a power of two `p <= m` yields a power of two in `[m, 2m)`.
pub proof fn lemma_grow_pow2_props(p: int, m: int)
    requires
        1 <= p <= m,
        is_pow2(p),
    ensures
        is_pow2(grow_pow2(p, m)),
        m <= grow_pow2(p, m) < 2 * m,
    decreases m - p,
{
    if p >= m {
        assert(grow_pow2(p, m) == p);
    } else {
        assert(grow_pow2(p, m) == grow_pow2(2 * p, m));
        assert(is_pow2(2 * p));
        if 2 * p <= m {
            lemma_grow_pow2_props(2 * p, m);
        } else {
            assert(grow_pow2(2 * p, m) == 2 * p);
        }
    }
}

/// Computes the initial search radius for the larger grid dimension `m`.
pub fn initial_radius(m: u32) -> (r: u64)
    requires
        0 < m,
    ensures
        r == spec_initial_radius(m as int),
        r < 0x1_0000_0000u64,
        r == 0 <==> m == 1,
        is_pow2(r as int) || r == 0,
        m > 1 ==> m <= 2 * r,
{
    let mut p: u64 = 1;
    while p < m as u64
        invariant
            1 <= p,
            p < 2 * (m as u64),
            is_pow2(p as int),
            grow_pow2(p as int, m as int) == grow_pow2(1, m as int),
        decreases 2 * (m as int) - p,
    {
        proof {
            assert(grow_pow2(p as int, m as int) == grow_pow2(2 * p as int, m as int));
        }
        p = p * 2;
    }
    proof {
        assert(grow_pow2(p as int, m as int) == p);
        lemma_grow_pow2_props(1, m as int);
        if m > 1 {
            assert(p % 2 == 0);
        }
    }
    p / 2
}

/// A round count is at least 1 and at most the starting radius (for radii
/// of at least 1).
pub proof fn lemma_num_rounds_bounds(radius: int)
    ensures
        1 <= spec_num_rounds(radius),
        radius >= 1 ==> spec_num_rounds(radius) <= radius,
    decreases (if radius >= 0 {
        radius
    } else {
        0
    }),
{
    if radius > 1 {
        lemma_num_rounds_bounds(radius / 2);
    }
}

/// How many rounds a run starting at the given radius performs.
pub fn num_rounds(radius: u64) -> (n: u64)
    ensures
        n == spec_num_rounds(radius as int),
{
    let mut r: u64 = radius;
    let mut n: u64 = 1;
    while r > 1
        invariant
            n >= 1,
            r <= radius,
            n - 1 + spec_num_rounds(r as int) == spec_num_rounds(radius as int),
        decreases r,
    {
        proof {
            lemma_num_rounds_bounds(radius as int);
            lemma_num_rounds_bounds(r as int / 2);
        }
        r = r / 2;
        n = n + 1;
    }
    n
}

/// The whole run from a given pair of grids and radius: one round, then the
/// grids swap roles and the radius halves, until the round at radius 1 (or 0,
/// on a 1-by-1 grid) has run; the result is the grid last written.
pub open spec fn run_from(
    read: Seq<Option<(u32, u32)>>,
    write: Seq<Option<(u32, u32)>>,
    w: int,
    h: int,
    mode: EdgeMode,
    radius: int,
) -> Seq<Option<(u32, u32)>>
    decreases radius,
{
    let written = round_spec(read, write, w, h, mode, radius);
    if radius <= 1 {
        written
    } else {
        run_from(written, read, w, h, mode, radius / 2)
    }
}

/// The final assignment grid that propagation computes from a seeded grid:
/// the run starts against an all-unseeded write grid, at the initial radius
/// derived from the larger dimension.
pub open spec fn propagate_spec(
    init: Seq<Option<(u32, u32)>>,
    w: int,
    h: int,
    mode: EdgeMode,
) -> Seq<Option<(u32, u32)>> {
    run_from(
        init,
        crate::voronoi::all_unseeded((w * h) as nat),
        w,
        h,
        mode,
        spec_initial_radius(if w < h {
            h
        } else {
            w
        }),
    )
}

/// Runs the whole propagation: allocates the second grid, runs the
/// shrinking-radius round loop with role swaps, and returns the grid that
/// holds the final assignments. The result is a function of the seeded grid
/// and the edge mode alone, so identical inputs yield identical outputs.
pub fn propagate(seeded: Voronoi, edge_mode: EdgeMode) -> (out: Voronoi)
    requires
        seeded.wf(),
    ensures
        out.wf(),
        out.spec_width() == seeded.spec_width(),
        out.spec_height() == seeded.spec_height(),
        out.cells() == propagate_spec(
            seeded.cells(),
            seeded.spec_width(),
            seeded.spec_height(),
            edge_mode,
        ),
{
    let w: u32 = seeded.width();
    let h: u32 = seeded.height();
    let m: u32 = if w < h {
        h
    } else {
        w
    };
    let mut radius: u64 = initial_radius(m);
    let ghost goal = propagate_spec(seeded.cells(), w as int, h as int, edge_mode);
    let mut read = seeded;
    let mut write = Voronoi::new(w, h);
    proof {
        assert(write.cells() =~= crate::voronoi::all_unseeded((w as int * h as int) as nat));
    }
    loop
        invariant_except_break
            run_from(
                read.cells(),
                write.cells(),
                w as int,
                h as int,
                edge_mode,
                radius as int,
            ) == goal,
        invariant
            read.wf(),
            write.wf(),
            read.spec_width() == w as int,
            read.spec_height() == h as int,
            write.spec_width() == w as int,
            write.spec_height() == h as int,
            radius < 0x1_0000_0000u64,
        ensures
            read.wf(),
            read.spec_width() == w as int,
            read.spec_height() == h as int,
            read.cells() == goal,
        decreases radius,
    {
        propagate_round(&read, &mut write, radius, edge_mode);
        let swapped = read;
        read = write;
        write = swapped;
        if radius <= 1 {
            break ;
        }
        radius = radius / 2;
    }
    read
}

/// An in-bounds query coordinate resolves to itself under every edge mode.
pub proof fn lemma_resolve_self(x: int, y: int, w: int, h: int, mode: EdgeMode)
    requires
        0 <= x < w,
        0 <= y < h,
    ensures
        crate::voronoi::resolve_spec(x, y, w, h, mode) == Some((x, y)),
{
    assert(x % w == x && y % h == y) by (nonlinear_arith)
        requires
            0 <= x < w,
            0 <= y < h,
    ;
}

/// A grid coordinate's index decomposes back into that coordinate.
pub proof fn lemma_index_of_decompose(x: int, y: int, w: int)
    requires
        0 <= x < w,
        0 <= y,
    ensures
        index_of(x, y, w) % w == x,
        index_of(x, y, w) / w == y,
{
    assert((y * w + x) % w == x && (y * w + x) / w == y) by (nonlinear_arith)
        requires
            0 <= x < w,
            0 <= y,
    ;
}

/// If any of the first `n` samples yields a candidate, a winner exists.
pub proof fn lemma_best_upto_some(
    cells: Seq<Option<(u32, u32)>>,
    w: int,
    h: int,
    mode: EdgeMode,
    x: int,
    y: int,
    radius: int,
    i: int,
    n: int,
)
    requires
        0 <= i < n,
        sample_at(cells, w, h, mode, x, y, radius, i) is Some,
    ensures
        best_upto(cells, w, h, mode, x, y, radius, n) is Some,
    decreases n,
{
    if i < n - 1 {
        lemma_best_upto_some(cells, w, h, mode, x, y, radius, i, n - 1);
    }
}

/// Whatever wins the candidate selection is the value of some cell of the
/// read grid.
pub proof fn lemma_best_upto_sound(
    cells: Seq<Option<(u32, u32)>>,
    w: int,
    h: int,
    mode: EdgeMode,
    x: int,
    y: int,
    radius: int,
    n: int,
)
    requires
        0 < w,
        0 < h,
        cells.len() == w * h,
    ensures
        match best_upto(cells, w, h, mode, x, y, radius, n) {
            Some(b) => exists|j: int| 0 <= j < cells.len() && cells[j] == Some(b.0),
            None => true,
        },
    decreases n,
{
    if n > 0 {
        lemma_best_upto_sound(cells, w, h, mode, x, y, radius, n - 1);
        crate::voronoi::lemma_lookup_from_cells(
            cells,
            w,
            h,
            mode,
            x + sample_offset(n - 1).0 * radius,
            y + sample_offset(n - 1).1 * radius,
        );
    }
}

/// A cell that already holds an assignment in the read grid still holds one
/// after the round: its own (center) sample always offers a candidate.
pub proof fn lemma_round_keeps(
    read: Seq<Option<(u32, u32)>>,
    write_old: Seq<Option<(u32, u32)>>,
    w: int,
    h: int,
    mode: EdgeMode,
    radius: int,
    x: int,
    y: int,
)
    requires
        0 < w,
        0 < h,
        read.len() == w * h,
        0 <= x < w,
        0 <= y < h,
        read[index_of(x, y, w)] is Some,
    ensures
        round_spec(read, write_old, w, h, mode, radius)[index_of(x, y, w)] is Some,
{
    lemma_round_reaches(read, write_old, w, h, mode, radius, x, y, 0, 0);
}

/// If the read grid assigns cell `p` and `q = p + (e1, e2) * radius` is
/// in-bounds (offset signs in `{-1, 0, 1}`), the round assigns `q`: the
/// sample of `q` in the direction of `p` offers a candidate.
pub proof fn lemma_round_reaches(
    read: Seq<Option<(u32, u32)>>,
    write_old: Seq<Option<(u32, u32)>>,
    w: int,
    h: int,
    mode: EdgeMode,
    radius: int,
    px: int,
    py: int,
    e1: int,
    e2: int,
)
    requires
        0 < w,
        0 < h,
        read.len() == w * h,
        0 <= px < w,
        0 <= py < h,
        -1 <= e1 <= 1,
        -1 <= e2 <= 1,
        0 <= px + e1 * radius < w,
        0 <= py + e2 * radius < h,
        read[index_of(px, py, w)] is Some,
    ensures
        round_spec(read, write_old, w, h, mode, radius)[index_of(
            px + e1 * radius,
            py + e2 * radius,
            w,
        )] is Some,
{
    let qx = px + e1 * radius;
    let qy = py + e2 * radius;
    let o1 = -e1;
    let o2 = -e2;
    let i: int = if o1 == 0 && o2 == 0 {
        0
    } else if o1 == 0 && o2 == -1 {
        1
    } else if o1 == 0 && o2 == 1 {
        2
    } else if o1 == -1 && o2 == 0 {
        3
    } else if o1 == 1 && o2 == 0 {
        4
    } else if o1 == -1 && o2 == -1 {
        5
    } else if o1 == -1 && o2 == 1 {
        6
    } else if o1 == 1 && o2 == -1 {
        7
    } else {
        8
    };
    assert(sample_offset(i) == (o1, o2));
    assert(qx + o1 * radius == px && qy + o2 * radius == py) by (nonlinear_arith)
        requires
            qx == px + e1 * radius,
            qy == py + e2 * radius,
            o1 == -e1,
            o2 == -e2,
    ;
    lemma_resolve_self(px, py, w, h, mode);
    lemma_index_bound(px, py, w, h);
    assert(sample_at(read, w, h, mode, qx, qy, radius, i) == read[index_of(px, py, w)]);
    lemma_best_upto_some(read, w, h, mode, qx, qy, radius, i, 9);
    lemma_index_bound(qx, qy, w, h);
    lemma_index_of_decompose(qx, qy, w);
}

/// How far, per axis, a run starting at the given radius can carry an
/// assignment: the sum of all the radii it will use.
pub open spec fn reach(r: int) -> int
    decreases r,
{
    if r <= 0 {
        0
    } else if r == 1 {
        1
    } else {
        r + reach(r / 2)
    }
}

/// For a power-of-two radius the radii sum telescopes to `2r - 1`.
pub proof fn lemma_reach_pow2(r: int)
    requires
        is_pow2(r),
    ensures
        reach(r) == 2 * r - 1,
    decreases r,
{
    if r > 1 {
        lemma_reach_pow2(r / 2);
    }
}

/// Coverage: if the read grid assigns some cell `p`, then after the whole run
/// every in-bounds cell `t` within the run's per-axis reach of `p` is
/// assigned, under every edge mode — the run can always walk from `p` to `t`
/// through in-bounds intermediate cells.
pub proof fn lemma_run_covers(
    read: Seq<Option<(u32, u32)>>,
    write: Seq<Option<(u32, u32)>>,
    w: int,
    h: int,
    mode: EdgeMode,
    r: int,
    px: int,
    py: int,
    tx: int,
    ty: int,
)
    requires
        0 < w,
        0 < h,
        read.len() == w * h,
        0 <= px < w,
        0 <= py < h,
        0 <= tx < w,
        0 <= ty < h,
        read[index_of(px, py, w)] is Some,
        -reach(r) <= tx - px <= reach(r),
        -reach(r) <= ty - py <= reach(r),
        is_pow2(r) || r == 0,
    ensures
        run_from(read, write, w, h, mode, r)[index_of(tx, ty, w)] is Some,
    decreases r,
{
    let written = round_spec(read, write, w, h, mode, r);
    assert(written.len() == w * h);
    if r <= 1 {
        // reach(r) <= 1, so t is one sample step of size r from p.
        let e1 = tx - px;
        let e2 = ty - py;
        if r == 0 {
            lemma_round_reaches(read, write, w, h, mode, r, px, py, 0, 0);
        } else {
            assert(px + e1 * r == tx && py + e2 * r == ty);
            lemma_round_reaches(read, write, w, h, mode, r, px, py, e1, e2);
        }
    } else {
        // Step from p toward t by one offset of the current radius, then
        // recurse at half the radius on the grid the round produced.
        lemma_reach_pow2(r);
        assert(is_pow2(r / 2));
        lemma_reach_pow2(r / 2);
        let e1: int = if tx - px >= r {
            1
        } else if px - tx >= r {
            -1
        } else {
            0
        };
        let e2: int = if ty - py >= r {
            1
        } else if py - ty >= r {
            -1
        } else {
            0
        };
        let nx = px + e1 * r;
        let ny = py + e2 * r;
        assert(r % 2 == 0 && r / 2 * 2 == r);
        assert((e1 == 1 ==> nx == px + r) && (e1 == -1 ==> nx == px - r) && (e1 == 0 ==> nx == px))
            by (nonlinear_arith)
            requires
                nx == px + e1 * r,
        ;
        assert((e2 == 1 ==> ny == py + r) && (e2 == -1 ==> ny == py - r) && (e2 == 0 ==> ny == py))
            by (nonlinear_arith)
            requires
                ny == py + e2 * r,
        ;
        assert(0 <= nx < w && -reach(r / 2) <= tx - nx <= reach(r / 2));
        assert(0 <= ny < h && -reach(r / 2) <= ty - ny <= reach(r / 2));
        lemma_round_reaches(read, write, w, h, mode, r, px, py, e1, e2);
        lemma_run_covers(written, read, w, h, mode, r / 2, nx, ny, tx, ty);
    }
}

/// Soundness of one selection: every assignment the round writes is either a
/// value of the read grid or the write grid's prior value.
pub proof fn lemma_round_sound(
    read: Seq<Option<(u32, u32)>>,
    write_old: Seq<Option<(u32, u32)>>,
    w: int,
    h: int,
    mode: EdgeMode,
    radius: int,
    k: int,
)
    requires
        0 < w,
        0 < h,
        read.len() == w * h,
        0 <= k < w * h,
    ensures
        match round_spec(read, write_old, w, h, mode, radius)[k] {
            Some(v) => (exists|j: int| 0 <= j < read.len() && read[j] == Some(v)) || write_old[k]
                == Some(v),
            None => true,
        },
{
    lemma_best_upto_sound(read, w, h, mode, k % w, k / w, radius, 9);
}

/// Soundness of the whole run: every assignment it produces is a value that
/// one of the two starting grids already held.
pub proof fn lemma_run_sound(
    read: Seq<Option<(u32, u32)>>,
    write: Seq<Option<(u32, u32)>>,
    w: int,
    h: int,
    mode: EdgeMode,
    r: int,
    source: Seq<Option<(u32, u32)>>,
    k: int,
)
    requires
        0 < w,
        0 < h,
        read.len() == w * h,
        write.len() == w * h,
        0 <= k < w * h,
        forall|i: int|
            0 <= i < w * h && #[trigger] read[i] is Some ==> exists|j: int|
                0 <= j < source.len() && source[j] == read[i],
        forall|i: int|
            0 <= i < w * h && #[trigger] write[i] is Some ==> exists|j: int|
                0 <= j < source.len() && source[j] == write[i],
    ensures
        match run_from(read, write, w, h, mode, r)[k] {
            Some(v) => exists|j: int| 0 <= j < source.len() && source[j] == Some(v),
            None => true,
        },
    decreases r,
{
    let written = round_spec(read, write, w, h, mode, r);
    assert forall|i: int| 0 <= i < w * h && #[trigger] written[i] is Some implies exists|j: int|
        0 <= j < source.len() && source[j] == written[i] by {
        lemma_round_sound(read, write, w, h, mode, r, i);
    }
    if r <= 1 {
    } else {
        lemma_run_sound(written, read, w, h, mode, r / 2, source, k);
    }
}

/// Coverage law: if any cell of the seeded grid holds an assignment, then
/// after propagation every cell of the grid holds one, under every edge mode
/// (for `Clamp` and `Repeat` in particular): the initial radius is at least
/// half the larger dimension, so the shrinking sample offsets can walk from
/// the seeded cell to any cell through in-bounds intermediate samples.
pub proof fn lemma_propagate_covers(
    init: Seq<Option<(u32, u32)>>,
    w: int,
    h: int,
    mode: EdgeMode,
    sx: int,
    sy: int,
    tx: int,
    ty: int,
)
    requires
        0 < w,
        0 < h,
        init.len() == w * h,
        0 <= sx < w,
        0 <= sy < h,
        0 <= tx < w,
        0 <= ty < h,
        init[index_of(sx, sy, w)] is Some,
    ensures
        propagate_spec(init, w, h, mode)[index_of(tx, ty, w)] is Some,
{
    let m: int = if w < h {
        h
    } else {
        w
    };
    lemma_grow_pow2_props(1, m);
    let g = grow_pow2(1, m);
    let r0 = g / 2;
    let blank = crate::voronoi::all_unseeded((w * h) as nat);
    if g == 1 {
        assert(m == 1 && w == 1 && h == 1);
        assert(sx == 0 && sy == 0 && tx == 0 && ty == 0);
        lemma_run_covers(init, blank, w, h, mode, 0, sx, sy, tx, ty);
    } else {
        assert(g % 2 == 0 && is_pow2(g / 2));
        lemma_reach_pow2(r0);
        assert(reach(r0) == g - 1);
        lemma_run_covers(init, blank, w, h, mode, r0, sx, sy, tx, ty);
    }
}

/// Soundness law: every assignment propagation produces is a value that the
/// seeded grid already held somewhere; an unseeded grid in particular stays
/// unseeded, and a cell can resolve only to an originally present seed.
pub proof fn lemma_propagate_sound(
    init: Seq<Option<(u32, u32)>>,
    w: int,
    h: int,
    mode: EdgeMode,
    k: int,
)
    requires
        0 < w,
        0 < h,
        init.len() == w * h,
        0 <= k < w * h,
    ensures
        match propagate_spec(init, w, h, mode)[k] {
            Some(v) => exists|j: int| 0 <= j < init.len() && init[j] == Some(v),
            None => true,
        },
{
    let blank = crate::voronoi::all_unseeded((w * h) as nat);
    assert(forall|i: int| 0 <= i < w * h ==> !(#[trigger] blank[i] is Some));
    assert forall|i: int| 0 <= i < w * h && #[trigger] init[i] is Some implies exists|j: int|
        0 <= j < init.len() && init[j] == init[i] by {
        assert(0 <= i < init.len() && init[i] == init[i]);
    }
    lemma_run_sound(
        init,
        blank,
        w,
        h,
        mode,
        spec_initial_radius(if w < h {
            h
        } else {
            w
        }),
        init,
        k,
    );
}

/// A cell that propagation leaves unassigned implies the whole seeded grid
/// was unseeded: no sample path could ever have touched a seeded cell, under
/// any edge mode, because one always exists inside the grid.
pub proof fn lemma_propagate_none_means_unseeded(
    init: Seq<Option<(u32, u32)>>,
    w: int,
    h: int,
    mode: EdgeMode,
    tx: int,
    ty: int,
)
    requires
        0 < w,
        0 < h,
        init.len() == w * h,
        0 <= tx < w,
        0 <= ty < h,
        propagate_spec(init, w, h, mode)[index_of(tx, ty, w)] is None,
    ensures
        forall|j: int| 0 <= j < init.len() ==> #[trigger] init[j] is None,
{
    assert forall|j: int| 0 <= j < init.len() implies #[trigger] init[j] is None by {
        if init[j] is Some {
            lemma_idx_decompose(j, w, h);
            lemma_propagate_covers(init, w, h, mode, j % w, j / w, tx, ty);
        }
    }
}

/// The trivial Voronoi law: when exactly one cell is seeded, and with its own
/// coordinate, every cell of the grid resolves to that seed, under every edge
/// mode.
pub proof fn lemma_propagate_single_seed(
    init: Seq<Option<(u32, u32)>>,
    w: int,
    h: int,
    mode: EdgeMode,
    s: (u32, u32),
    tx: int,
    ty: int,
)
    requires
        0 < w,
        0 < h,
        init.len() == w * h,
        s.0 < w,
        s.1 < h,
        0 <= tx < w,
        0 <= ty < h,
        init[index_of(s.0 as int, s.1 as int, w)] == Some(s),
        forall|j: int|
            0 <= j < init.len() && j != index_of(s.0 as int, s.1 as int, w)
                ==> #[trigger] init[j] is None,
    ensures
        propagate_spec(init, w, h, mode)[index_of(tx, ty, w)] == Some(s),
{
    lemma_propagate_covers(init, w, h, mode, s.0 as int, s.1 as int, tx, ty);
    lemma_index_bound(tx, ty, w, h);
    lemma_propagate_sound(init, w, h, mode, index_of(tx, ty, w));
}

/// A winner's weighted squared distance is never negative, and it is zero
/// only for the cell's own coordinate.
pub proof fn lemma_best_upto_zero(
    cells: Seq<Option<(u32, u32)>>,
    w: int,
    h: int,
    mode: EdgeMode,
    x: int,
    y: int,
    radius: int,
    n: int,
)
    ensures
        match best_upto(cells, w, h, mode, x, y, radius, n) {
            Some(b) => b.1 >= 0 && (b.1 == 0 ==> b.0.0 == x && b.0.1 == y),
            None => true,
        },
    decreases n,
{
    if n > 0 {
        lemma_best_upto_zero(cells, w, h, mode, x, y, radius, n - 1);
        match sample_at(cells, w, h, mode, x, y, radius, n - 1) {
            Some(s) => {
                let d = dist2(x, y, s) * sample_weight2(n - 1);
                let m = sample_weight2(n - 1);
                assert(d >= 0 && (d == 0 ==> s.0 == x && s.1 == y)) by (nonlinear_arith)
                    requires
                        d == ((s.0 - x) * (s.0 - x) + (s.1 - y) * (s.1 - y)) * m,
                        1 <= m <= 2,
                ;
            },
            None => {},
        }
    }
}

/// The winner's weighted squared distance is at most that of any candidate
/// the selection saw.
pub proof fn lemma_best_upto_le(
    cells: Seq<Option<(u32, u32)>>,
    w: int,
    h: int,
    mode: EdgeMode,
    x: int,
    y: int,
    radius: int,
    i: int,
    n: int,
)
    requires
        0 <= i < n,
        sample_at(cells, w, h, mode, x, y, radius, i) is Some,
    ensures
        match best_upto(cells, w, h, mode, x, y, radius, n) {
            Some(b) => b.1 <= dist2(
                x,
                y,
                sample_at(cells, w, h, mode, x, y, radius, i)->Some_0,
            ) * sample_weight2(i),
            None => false,
        },
    decreases n,
{
    if i < n - 1 {
        lemma_best_upto_le(cells, w, h, mode, x, y, radius, i, n - 1);
    }
}

/// A cell assigned its own coordinate keeps it through the round: its center
/// sample competes at distance zero, and only the cell itself can tie that.
pub proof fn lemma_round_seed_fixed(
    read: Seq<Option<(u32, u32)>>,
    write_old: Seq<Option<(u32, u32)>>,
    w: int,
    h: int,
    mode: EdgeMode,
    radius: int,
    s: (u32, u32),
)
    requires
        0 < w,
        0 < h,
        read.len() == w * h,
        s.0 < w,
        s.1 < h,
        read[index_of(s.0 as int, s.1 as int, w)] == Some(s),
    ensures
        round_spec(read, write_old, w, h, mode, radius)[index_of(s.0 as int, s.1 as int, w)]
            == Some(s),
{
    let x = s.0 as int;
    let y = s.1 as int;
    lemma_resolve_self(x, y, w, h, mode);
    lemma_index_bound(x, y, w, h);
    assert(sample_at(read, w, h, mode, x, y, radius, 0) == Some(s));
    lemma_best_upto_le(read, w, h, mode, x, y, radius, 0, 9);
    lemma_best_upto_zero(read, w, h, mode, x, y, radius, 9);
    let b = best_upto(read, w, h, mode, x, y, radius, 9)->Some_0;
    assert(dist2(x, y, s) == 0);
    assert(b.1 <= 0 && b.1 >= 0);
    assert(b.0 == s);
    lemma_index_of_decompose(x, y, w);
}

/// A cell assigned its own coordinate keeps it through the whole run.
pub proof fn lemma_run_seed_fixed(
    read: Seq<Option<(u32, u32)>>,
    write: Seq<Option<(u32, u32)>>,
    w: int,
    h: int,
    mode: EdgeMode,
    r: int,
    s: (u32, u32),
)
    requires
        0 < w,
        0 < h,
        read.len() == w * h,
        s.0 < w,
        s.1 < h,
        read[index_of(s.0 as int, s.1 as int, w)] == Some(s),
    ensures
        run_from(read, write, w, h, mode, r)[index_of(s.0 as int, s.1 as int, w)] == Some(s),
    decreases r,
{
    let written = round_spec(read, write, w, h, mode, r);
    lemma_round_seed_fixed(read, write, w, h, mode, r, s);
    if r > 1 {
        lemma_run_seed_fixed(written, read, w, h, mode, r / 2, s);
    }
}

/// Seed fixed-point law: a cell seeded with its own coordinate (distance
/// zero) still resolves to itself after propagation, under every edge mode —
/// the bleed readout therefore leaves originally opaque pixels unchanged.
pub proof fn lemma_propagate_seed_keeps_itself(
    init: Seq<Option<(u32, u32)>>,
    w: int,
    h: int,
    mode: EdgeMode,
    s: (u32, u32),
)
    requires
        0 < w,
        0 < h,
        init.len() == w * h,
        s.0 < w,
        s.1 < h,
        init[index_of(s.0 as int, s.1 as int, w)] == Some(s),
    ensures
        propagate_spec(init, w, h, mode)[index_of(s.0 as int, s.1 as int, w)] == Some(s),
{
    lemma_run_seed_fixed(
        init,
        crate::voronoi::all_unseeded((w * h) as nat),
        w,
        h,
        mode,
        spec_initial_radius(if w < h {
            h
        } else {
            w
        }),
        s,
    );
}

/// Determinism law: propagation is a pure function of the seeded grid and
/// the edge mode — `propagate` promises its result equals `propagate_spec`
/// of its input, so two runs over equal grids with the same mode yield
/// bit-identical assignment grids.
pub proof fn lemma_propagate_deterministic(
    a: Seq<Option<(u32, u32)>>,
    b: Seq<Option<(u32, u32)>>,
    w: int,
    h: int,
    mode: EdgeMode,
)
    requires
        a == b,
    ensures
        propagate_spec(a, w, h, mode) == propagate_spec(b, w, h, mode),
{
}

/// The sample pattern as executable data: per-axis offset signs and the
/// squared distance weight, by enumeration index.
fn offset_at(i: usize) -> (r: ((i64, i64), u64))
    requires
        i < 9,
    ensures
        r.0.0 == sample_offset(i as int).0,
        r.0.1 == sample_offset(i as int).1,
        r.1 == sample_weight2(i as int),
{
    if i == 0 {
        ((0, 0), 1)
    } else if i == 1 {
        ((0, -1), 1)
    } else if i == 2 {
        ((0, 1), 1)
    } else if i == 3 {
        ((-1, 0), 1)
    } else if i == 4 {
        ((1, 0), 1)
    } else if i == 5 {
        ((-1, -1), 2)
    } else if i == 6 {
        ((-1, 1), 2)
    } else if i == 7 {
        ((1, -1), 2)
    } else {
        ((1, 1), 2)
    }
}

} // verus!
