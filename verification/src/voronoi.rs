//! The assignment grid and the edge-handling policy for out-of-bounds lookups.

use vstd::prelude::*;
use vstd::pervasive::VecAdditionalExecFns;

verus! {

/// Policy for resolving a query coordinate that may lie outside the grid.
#[derive(Copy, Clone, PartialEq, Eq, Structural)]
pub enum EdgeMode {
    /// Each axis is clamped into `[0, dimension - 1]`.
    Clamp,
    /// Each axis is reduced modulo its dimension (Euclidean remainder).
    Repeat,
    /// Out-of-bounds queries yield no value at all.
    Zero,
}

/// A grid mapping every in-bounds cell to an optional "closest seed" coordinate.
pub struct Voronoi {
    width: u32,
    height: u32,
    closest: Vec<Option<(u32, u32)>>,
}

impl Voronoi {
    /// The grid width as a mathematical integer.
    pub closed spec fn spec_width(&self) -> int {
        self.width as int
    }

    /// The grid height as a mathematical integer.
    pub closed spec fn spec_height(&self) -> int {
        self.height as int
    }

    /// The stored assignments, indexed by `y * width + x`.
    pub closed spec fn cells(&self) -> Seq<Option<(u32, u32)>> {
        self.closest@
    }

    /// Well-formedness: positive dimensions, a cell for every coordinate, and
    /// every present value an in-bounds coordinate.
    pub open spec fn wf(&self) -> bool {
        &&& 0 < self.spec_width()
        &&& 0 < self.spec_height()
        &&& self.spec_width() * self.spec_height() <= u32::MAX
        &&& self.cells().len() == self.spec_width() * self.spec_height()
        &&& forall|i: int|
            0 <= i < self.cells().len() ==> seed_in_bounds(
                #[trigger] self.cells()[i],
                self.spec_width(),
                self.spec_height(),
            )
    }

    /// Allocates a `width` by `height` grid with every cell unseeded.
    pub fn new(width: u32, height: u32) -> (v: Voronoi)
        requires
            0 < width,
            0 < height,
            width * height <= u32::MAX,
        ensures
            v.wf(),
            v.spec_width() == width,
            v.spec_height() == height,
            v.cells() =~= all_unseeded((width * height) as nat),
    {
        let total: u32 = width * height;
        let mut closest: Vec<Option<(u32, u32)>> = Vec::new();
        let mut i: u32 = 0;
        while i < total
            invariant
                i <= total,
                closest@.len() == i,
                forall|j: int| 0 <= j < i ==> closest@[j] is None,
            decreases total - i,
        {
            closest.push(None);
            i = i + 1;
        }
        Voronoi { width, height, closest }
    }
}

impl Voronoi {
    /// The grid width.
    pub fn width(&self) -> (w: u32)
        ensures
            w == self.spec_width(),
    {
        self.width
    }

    /// The grid height.
    pub fn height(&self) -> (h: u32)
        ensures
            h == self.spec_height(),
    {
        self.height
    }

    /// Looks up the assignment at a possibly out-of-bounds query coordinate,
    /// resolved through the edge mode.
    pub fn get_closest(&self, position: (i64, i64), edge_mode: EdgeMode) -> (r: Option<(u32, u32)>)
        requires
            self.wf(),
        ensures
            r == lookup(
                self.cells(),
                self.spec_width(),
                self.spec_height(),
                edge_mode,
                position.0 as int,
                position.1 as int,
            ),
    {
        let w: u32 = self.width;
        let h: u32 = self.height;
        let resolved: Option<(u32, u32)> = match edge_mode {
            EdgeMode::Clamp => {
                let cx: u32 = clamp_to_dim(position.0, w);
                let cy: u32 = clamp_to_dim(position.1, h);
                Some((cx, cy))
            },
            EdgeMode::Repeat => {
                let cx: u32 = wrap_to_dim(position.0, w);
                let cy: u32 = wrap_to_dim(position.1, h);
                Some((cx, cy))
            },
            EdgeMode::Zero => {
                let in_bounds = position.0 >= 0 && position.0 < w as i64 && position.1 >= 0
                    && position.1 < h as i64;
                if in_bounds {
                    Some((position.0 as u32, position.1 as u32))
                } else {
                    None
                }
            },
        };
        match resolved {
            Some(p) => {
                proof {
                    lemma_index_bound(p.0 as int, p.1 as int, w as int, h as int);
                }
                let idx: usize = p.1 as usize * w as usize + p.0 as usize;
                self.closest[idx]
            },
            None => None,
        }
    }

    /// Stores an assignment at an in-bounds cell.
    pub fn set_closest(&mut self, position: (u32, u32), new_closest: Option<(u32, u32)>)
        requires
            old(self).wf(),
            position.0 < old(self).spec_width(),
            position.1 < old(self).spec_height(),
            seed_in_bounds(new_closest, old(self).spec_width(), old(self).spec_height()),
        ensures
            final(self).wf(),
            final(self).spec_width() == old(self).spec_width(),
            final(self).spec_height() == old(self).spec_height(),
            final(self).cells() == old(self).cells().update(
                position.1 * old(self).spec_width() + position.0,
                new_closest,
            ),
    {
        proof {
            lemma_index_bound(
                position.0 as int,
                position.1 as int,
                self.spec_width(),
                self.spec_height(),
            );
        }
        let idx: usize = position.1 as usize * self.width as usize + position.0 as usize;
        self.closest.set(idx, new_closest);
    }
}

/// Clamps a query axis into `[0, dim - 1]`.
fn clamp_to_dim(x: i64, dim: u32) -> (r: u32)
    requires
        0 < dim,
    ensures
        r == clamp_axis(x as int, dim as int),
{
    if x < 0 {
        0
    } else if x > dim as i64 - 1 {
        dim - 1
    } else {
        x as u32
    }
}

/// Reduces a query axis modulo `dim`, Euclidean (always non-negative) remainder.
fn wrap_to_dim(x: i64, dim: u32) -> (r: u32)
    requires
        0 < dim,
    ensures
        r == wrap_axis(x as int, dim as int),
{
    let m: i64 = x.checked_rem_euclid(dim as i64).unwrap();
    m as u32
}

/// The in-bounds index of a grid-space coordinate.
pub open spec fn index_of(x: int, y: int, w: int) -> int {
    y * w + x
}

/// An in-bounds coordinate indexes into the cell sequence.
pub proof fn lemma_index_bound(x: int, y: int, w: int, h: int)
    requires
        0 <= x < w,
        0 <= y < h,
    ensures
        0 <= index_of(x, y, w) < w * h,
{
    assert(0 <= y * w + x < w * h) by (nonlinear_arith)
        requires
            0 <= x < w,
            0 <= y < h,
    ;
}

/// A query axis clamped into `[0, dim - 1]`.
pub open spec fn clamp_axis(x: int, dim: int) -> int {
    if x < 0 {
        0
    } else if x > dim - 1 {
        dim - 1
    } else {
        x
    }
}

/// A query axis wrapped modulo `dim` (Euclidean remainder; `dim > 0`).
pub open spec fn wrap_axis(x: int, dim: int) -> int {
    x % dim
}

/// Resolves a possibly out-of-bounds query coordinate to an in-bounds one, or
/// to no coordinate at all under `Zero`.
pub open spec fn resolve_spec(x: int, y: int, w: int, h: int, mode: EdgeMode) -> Option<(int, int)> {
    match mode {
        EdgeMode::Clamp => Some((clamp_axis(x, w), clamp_axis(y, h))),
        EdgeMode::Repeat => Some((wrap_axis(x, w), wrap_axis(y, h))),
        EdgeMode::Zero => if 0 <= x < w && 0 <= y < h {
            Some((x, y))
        } else {
            None
        },
    }
}

/// The assignment a query coordinate reads, through the edge mode.
pub open spec fn lookup(
    cells: Seq<Option<(u32, u32)>>,
    w: int,
    h: int,
    mode: EdgeMode,
    x: int,
    y: int,
) -> Option<(u32, u32)> {
    match resolve_spec(x, y, w, h, mode) {
        Some(p) => cells[index_of(p.0, p.1, w)],
        None => None,
    }
}

/// The seeding rule: a cell whose source alpha lies strictly above the
/// preserve threshold is seeded (with its own coordinate); all others start
/// unseeded.
pub fn seeded_from_alpha(alpha: u8, preserve_above: u8) -> (r: bool)
    ensures
        r == (alpha > preserve_above),
{
    alpha > preserve_above
}

/// Holds when an optional assignment, if present, names an in-bounds cell.
pub open spec fn seed_in_bounds(c: Option<(u32, u32)>, w: int, h: int) -> bool {
    match c {
        Some(s) => s.0 < w && s.1 < h,
        None => true,
    }
}

/// A resolved coordinate is always in-bounds, whatever the mode.
pub proof fn lemma_resolve_in_bounds(x: int, y: int, w: int, h: int, mode: EdgeMode)
    requires
        0 < w,
        0 < h,
    ensures
        match resolve_spec(x, y, w, h, mode) {
            Some(p) => 0 <= p.0 < w && 0 <= p.1 < h,
            None => true,
        },
{
    assert(0 <= x % w < w && 0 <= y % h < h) by (nonlinear_arith)
        requires
            0 < w,
            0 < h,
    ;
}

/// Whatever a lookup returns, it is the value of some cell of the sequence;
/// in particular, over a well-formed grid it is in-bounds if present.
pub proof fn lemma_lookup_from_cells(
    cells: Seq<Option<(u32, u32)>>,
    w: int,
    h: int,
    mode: EdgeMode,
    x: int,
    y: int,
)
    requires
        0 < w,
        0 < h,
        cells.len() == w * h,
    ensures
        match lookup(cells, w, h, mode, x, y) {
            Some(v) => exists|j: int| 0 <= j < cells.len() && cells[j] == Some(v),
            None => true,
        },
{
    lemma_resolve_in_bounds(x, y, w, h, mode);
    match resolve_spec(x, y, w, h, mode) {
        Some(p) => {
            lemma_index_bound(p.0, p.1, w, h);
            let j = index_of(p.0, p.1, w);
            match cells[j] {
                Some(v) => {
                    assert(0 <= j < cells.len() && cells[j] == Some(v));
                },
                None => {},
            }
        },
        None => {},
    }
}

/// A sequence of `n` unseeded cells.
pub open spec fn all_unseeded(n: nat) -> Seq<Option<(u32, u32)>> {
    Seq::new(n, |i: int| None)
}

} // verus!
