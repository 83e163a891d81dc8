//! Pixel-grid dimensions and the point-to-pixel projection.

use vstd::prelude::*;
use vstd::arithmetic::div_mod::{
    lemma_basic_div, lemma_div_is_ordered, lemma_div_plus_one, lemma_div_pos_is_pos,
    lemma_hoist_over_denominator,
};
use crate::PcError;
use crate::vertex::{BoundingBox, Vertex, COORD_LIMIT};

verus! {

/// `n / d` rounded to the nearest integer, ties away from zero, for
/// `n >= 0 < d`: the quotient of `2n + d` by `2d`.
pub open spec fn round_div(n: int, d: int) -> int {
    (2 * n + d) / (2 * d)
}

/// Rounded division of zero is zero.
pub proof fn lemma_round_div_zero(d: int)
    requires
        0 < d,
    ensures
        round_div(0, d) == 0,
{
    lemma_basic_div(d, 2 * d);
}

/// Rounded division is monotone in the dividend.
pub proof fn lemma_round_div_ordered(n1: int, n2: int, d: int)
    requires
        n1 <= n2,
        0 < d,
    ensures
        round_div(n1, d) <= round_div(n2, d),
{
    lemma_div_is_ordered(2 * n1 + d, 2 * n2 + d, 2 * d);
}

/// A non-negative dividend gives a quotient between zero and itself.
pub proof fn lemma_round_div_le(n: int, d: int)
    requires
        0 <= n,
        1 <= d,
    ensures
        0 <= round_div(n, d) <= n,
{
    lemma_div_pos_is_pos(2 * n + d, 2 * d);
    assert(2 * n + d <= d + n * (2 * d)) by (nonlinear_arith)
        requires 0 <= n && 1 <= d;
    lemma_div_is_ordered(2 * n + d, d + n * (2 * d), 2 * d);
    lemma_hoist_over_denominator(d, n, (2 * d) as nat);
    lemma_basic_div(d, 2 * d);
}

/// Growing the dividend by the divisor grows the rounded quotient by one.
pub proof fn lemma_round_div_step(n: int, d: int)
    requires
        0 < d,
    ensures
        round_div(n + d, d) == round_div(n, d) + 1,
{
    assert(2 * (n + d) + d == (2 * d) + (2 * n + d));
    lemma_div_plus_one(2 * n + d, 2 * d);
}

/// The pixel grid derived from a bounding box and a positive scale: the
/// grid covers the box's x-y extent at one pixel per `scale` fixed-point
/// units, both boundary points included.
#[derive(Clone, Copy, Debug, PartialEq, Eq, Structural)]
pub struct RasterGeometry {
    pub min_x: i64,
    pub min_y: i64,
    pub max_x: i64,
    pub max_y: i64,
    pub scale: i64,
    pub width: i64,
    pub height: i64,
}

impl RasterGeometry {
    /// Bounded extent, positive scale, and the two dimension formulas.
    pub open spec fn wf(self) -> bool {
        &&& 1 <= self.scale <= COORD_LIMIT
        &&& -COORD_LIMIT <= self.min_x <= self.max_x <= COORD_LIMIT
        &&& -COORD_LIMIT <= self.min_y <= self.max_y <= COORD_LIMIT
        &&& self.width == 1 + round_div(self.max_x - self.min_x, self.scale as int)
        &&& self.height == 1 + round_div(self.max_y - self.min_y, self.scale as int)
    }

    /// The vertex's x and y lie within the extent the grid was derived from.
    pub open spec fn covers(self, v: Vertex) -> bool {
        &&& self.min_x <= v.x <= self.max_x
        &&& self.min_y <= v.y <= self.max_y
    }

    /// The raw mirrored x pixel coordinate: `width` minus the rounded,
    /// scaled offset from the least x. It lands in `[1, width]`; the value
    /// `width` itself (taken at the least x) is clamped by `px`.
    pub open spec fn raw_px(self, v: Vertex) -> int {
        self.width - round_div(v.x - self.min_x, self.scale as int)
    }

    /// The x pixel coordinate actually plotted: `raw_px` clamped into the
    /// grid, so the boundary value `width` falls on the last column.
    pub open spec fn px(self, v: Vertex) -> int {
        if self.raw_px(v) >= self.width {
            self.width - 1
        } else {
            self.raw_px(v)
        }
    }

    /// The y pixel coordinate: the rounded, scaled offset from the least y.
    pub open spec fn py(self, v: Vertex) -> int {
        round_div(v.y - self.min_y, self.scale as int)
    }

    /// Derives the grid from a bounding box: each dimension is the rounded
    /// scaled extent of its axis plus one. A non-positive scale is
    /// `InvalidScale`.
    pub fn new(bb: &BoundingBox, scale: i64) -> (r: Result<RasterGeometry, PcError>)
        requires
            bb.wf(),
            bb.min.wf(),
            bb.max.wf(),
            scale <= COORD_LIMIT,
        ensures
            scale <= 0 <==> r == Err::<RasterGeometry, PcError>(PcError::InvalidScale),
            match r {
                Ok(g) => {
                    &&& g.wf()
                    &&& g.min_x == bb.min.x && g.min_y == bb.min.y
                    &&& g.max_x == bb.max.x && g.max_y == bb.max.y
                    &&& g.scale == scale
                    &&& g.width == 1 + round_div(bb.max.x - bb.min.x, scale as int)
                    &&& g.height == 1 + round_div(bb.max.y - bb.min.y, scale as int)
                    &&& 1 <= g.width && 1 <= g.height
                },
                Err(e) => e == PcError::InvalidScale,
            },
    {
        if scale <= 0 {
            return Err(PcError::InvalidScale);
        }
        let w = round_div_exec(bb.max.x - bb.min.x, scale);
        let h = round_div_exec(bb.max.y - bb.min.y, scale);
        proof {
            lemma_round_div_le(bb.max.x - bb.min.x, scale as int);
            lemma_round_div_le(bb.max.y - bb.min.y, scale as int);
        }
        Ok(RasterGeometry {
            min_x: bb.min.x,
            min_y: bb.min.y,
            max_x: bb.max.x,
            max_y: bb.max.y,
            scale,
            width: 1 + w,
            height: 1 + h,
        })
    }

    /// Projects a covered vertex to its clamped pixel coordinate. The x
    /// axis is mirrored: greater x lands further left (a lesser column).
    pub fn project(&self, v: &Vertex) -> (p: (i64, i64))
        requires
            self.wf(),
            self.covers(*v),
        ensures
            p.0 == self.px(*v),
            p.1 == self.py(*v),
            0 <= p.0 < self.width,
            0 <= p.1 < self.height,
    {
        proof {
            lemma_round_div_le(self.max_x - self.min_x, self.scale as int);
            lemma_round_div_le(self.max_y - self.min_y, self.scale as int);
            lemma_round_div_le(v.x - self.min_x, self.scale as int);
            lemma_round_div_ordered(v.x - self.min_x, self.max_x - self.min_x, self.scale as int);
            lemma_round_div_ordered(v.y - self.min_y, self.max_y - self.min_y, self.scale as int);
            lemma_round_div_le(v.y - self.min_y, self.scale as int);
        }
        let rx = round_div_exec(v.x - self.min_x, self.scale);
        let raw_x = self.width - rx;
        let x = if raw_x >= self.width { self.width - 1 } else { raw_x };
        let y = round_div_exec(v.y - self.min_y, self.scale);
        (x, y)
    }
}

/// Exact rounded division on machine integers, for a dividend within twice
/// the coordinate range.
fn round_div_exec(n: i64, d: i64) -> (r: i64)
    requires
        0 <= n <= 2 * COORD_LIMIT,
        1 <= d <= COORD_LIMIT,
    ensures
        r == round_div(n as int, d as int),
        0 <= r <= n,
{
    proof {
        lemma_round_div_le(n as int, d as int);
    }
    (2 * n + d) / (2 * d)
}

/// The dimension formulas on a degenerate box: a single point, where the
/// least and greatest coordinates coincide, gives a one-by-one grid.
pub proof fn lemma_degenerate_box_unit_size(g: RasterGeometry)
    requires
        g.wf(),
        g.min_x == g.max_x,
        g.min_y == g.max_y,
    ensures
        g.width == 1,
        g.height == 1,
{
    lemma_round_div_zero(g.scale as int);
}

/// The mirrored x axis: of two covered vertices at least one scale unit
/// apart in x, the greater x projects to the strictly lesser raw column.
/// Vertices nearer than one scale unit may share a column, since the
/// projection rounds to whole pixels.
pub proof fn lemma_mirrored_x(g: RasterGeometry, v1: Vertex, v2: Vertex)
    requires
        g.wf(),
        g.covers(v1),
        g.covers(v2),
        v1.x < v2.x,
        v2.x - v1.x >= g.scale,
    ensures
        g.raw_px(v1) > g.raw_px(v2),
{
    let s = g.scale as int;
    let d1 = v1.x - g.min_x;
    let d2 = v2.x - g.min_x;
    lemma_round_div_step(d1, s);
    lemma_round_div_ordered(d1 + s, d2, s);
}

} // verus!
