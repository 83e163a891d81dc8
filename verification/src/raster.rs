//! The RGBA pixel buffer and the stochastic density accumulation.

use vstd::prelude::*;
use crate::color::RGB;
use crate::geometry::RasterGeometry;
use crate::vertex::Vertex;

verus! {

/// One pixel of the raster.
#[derive(Clone, Copy, Debug, PartialEq, Eq, Structural)]
pub struct Rgba {
    pub r: u8,
    pub g: u8,
    pub b: u8,
    pub a: u8,
}

/// A fully transparent pixel in the raster's base color.
pub open spec fn init_pixel(color: RGB) -> Rgba {
    Rgba { r: color.r, g: color.g, b: color.b, a: 0 }
}

/// One saturating accumulation step: a hit raises the alpha by ten exactly
/// when it is still below 250 and the drawn byte exceeds it, so the chance
/// of growth shrinks as the pixel fills, and 250 is never passed.
pub open spec fn alpha_step(a: int, rnd: int) -> int {
    if a < 250 && rnd > a {
        a + 10
    } else {
        a
    }
}

/// The alpha an accumulator holds after consuming the drawn bytes in order,
/// starting from `a0`.
pub open spec fn alpha_after(a0: int, rnds: Seq<u8>) -> int
    decreases rnds.len(),
{
    if rnds.len() == 0 {
        a0
    } else {
        alpha_step(alpha_after(a0, rnds.drop_last()), rnds.last() as int)
    }
}

/// From a start that is a multiple of ten and at most 250, the accumulator
/// stays a multiple of ten, never falls, and never passes 250, whatever
/// bytes are drawn.
pub proof fn lemma_alpha_bounded(a0: int, rnds: Seq<u8>)
    requires
        0 <= a0 <= 250,
        a0 % 10 == 0,
    ensures
        a0 <= alpha_after(a0, rnds) <= 250,
        alpha_after(a0, rnds) % 10 == 0,
    decreases rnds.len(),
{
    if rnds.len() > 0 {
        lemma_alpha_bounded(a0, rnds.drop_last());
    }
}

/// The alpha a pixel reaches is non-decreasing in the number of hits it
/// receives, and bounded by 250: more hits never darken it back, whatever
/// bytes are drawn.
pub proof fn lemma_alpha_monotone(a0: int, rnds: Seq<u8>, k1: int, k2: int)
    requires
        0 <= a0 <= 250,
        a0 % 10 == 0,
        0 <= k1 <= k2 <= rnds.len(),
    ensures
        alpha_after(a0, rnds.take(k1)) <= alpha_after(a0, rnds.take(k2)) <= 250,
    decreases k2 - k1,
{
    lemma_alpha_bounded(a0, rnds.take(k2));
    if k1 < k2 {
        lemma_alpha_monotone(a0, rnds, k1, k2 - 1);
        assert(rnds.take(k2).drop_last() =~= rnds.take(k2 - 1));
        lemma_alpha_bounded(a0, rnds.take(k2 - 1));
    }
}

/// The mutable RGBA grid the density raster is accumulated into, row-major,
/// every pixel in the base color.
pub struct PixelBuffer {
    pub width: usize,
    pub height: usize,
    pub color: RGB,
    pub data: Vec<Rgba>,
}

impl PixelBuffer {
    /// Row-major index of the pixel at `(x, y)`.
    pub open spec fn idx(self, x: int, y: int) -> int {
        y * self.width + x
    }

    /// The grid holds exactly `width * height` pixels, each in the base
    /// color, with an alpha that is a multiple of ten and at most 250.
    pub open spec fn wf(self) -> bool {
        &&& self.data@.len() == self.width * self.height
        &&& forall|i: int| 0 <= i < self.data@.len() ==> {
            &&& (#[trigger] self.data@[i]).r == self.color.r
            &&& self.data@[i].g == self.color.g
            &&& self.data@[i].b == self.color.b
            &&& self.data@[i].a % 10 == 0
            &&& self.data@[i].a <= 250
        }
    }

    /// Allocates the grid with every pixel fully transparent in the base
    /// color.
    pub fn new(width: usize, height: usize, color: RGB) -> (r: PixelBuffer)
        requires
            width * height <= usize::MAX,
        ensures
            r.wf(),
            r.width == width,
            r.height == height,
            r.color == color,
            forall|i: int| 0 <= i < r.data@.len() ==> #[trigger] r.data@[i] == init_pixel(color),
    {
        let total = width * height;
        let mut data: Vec<Rgba> = Vec::new();
        let mut i: usize = 0;
        while i < total
            invariant
                i <= total,
                data@.len() == i,
                forall|j: int| 0 <= j < i ==> #[trigger] data@[j] == init_pixel(color),
            decreases total - i,
        {
            data.push(Rgba { r: color.r, g: color.g, b: color.b, a: 0 });
            i = i + 1;
        }
        PixelBuffer { width, height, color, data }
    }

    /// Reads the pixel at `(x, y)`.
    pub fn get(&self, x: usize, y: usize) -> (r: Rgba)
        requires
            self.wf(),
            x < self.width,
            y < self.height,
        ensures
            r == self.data@[self.idx(x as int, y as int)],
    {
        proof {
            lemma_row_major_in_range(x as int, y as int, self.width as int, self.height as int);
        }
        let _n = self.data.len();
        self.data[y * self.width + x]
    }

    /// Plots one hit at `(x, y)`: applies one accumulation step with the
    /// drawn byte to that pixel's alpha and leaves every other pixel
    /// untouched. The alpha never falls and never passes 250.
    pub fn plot(&mut self, x: usize, y: usize, rnd: u8)
        requires
            old(self).wf(),
            x < old(self).width,
            y < old(self).height,
        ensures
            final(self).wf(),
            final(self).width == old(self).width,
            final(self).height == old(self).height,
            final(self).color == old(self).color,
            final(self).data@ == old(self).data@.update(
                old(self).idx(x as int, y as int),
                Rgba {
                    r: old(self).color.r,
                    g: old(self).color.g,
                    b: old(self).color.b,
                    a: alpha_step(
                        old(self).data@[old(self).idx(x as int, y as int)].a as int,
                        rnd as int,
                    ) as u8,
                },
            ),
            old(self).data@[old(self).idx(x as int, y as int)].a
                <= final(self).data@[old(self).idx(x as int, y as int)].a,
            final(self).data@[old(self).idx(x as int, y as int)].a <= 250,
    {
        proof {
            lemma_row_major_in_range(x as int, y as int, self.width as int, self.height as int);
        }
        let _n = self.data.len();
        let i = y * self.width + x;
        let mut a = self.data[i].a;
        if a < 250 && rnd > a {
            a = a + 10;
        }
        let p = Rgba { r: self.color.r, g: self.color.g, b: self.color.b, a };
        self.data.set(i, p);
    }
}

/// A row-major index lies inside the grid.
pub proof fn lemma_row_major_in_range(x: int, y: int, w: int, h: int)
    requires
        0 <= x < w,
        0 <= y < h,
    ensures
        0 <= y * w + x < w * h,
    // the last row starts at (h - 1) * w, so every index is below h * w
{
    assert(0 <= y * w + x < w * h) by (nonlinear_arith)
        requires 0 <= x < w && 0 <= y < h;
}

/// The pixel a covered vertex is plotted into: its clamped projection as a
/// row-major index.
pub open spec fn pix_index(g: RasterGeometry, v: Vertex) -> int {
    g.py(v) * g.width + g.px(v)
}

/// Each of the vertices plots into a pixel of the grid.
pub open spec fn plots_in_range(g: RasterGeometry, vs: Seq<Vertex>) -> bool {
    forall|j: int|
        0 <= j < vs.len() ==> 0 <= pix_index(g, #[trigger] vs[j]) < g.width * g.height
}

/// A covered vertex projects into the grid, so its pixel index is in range.
pub proof fn lemma_pix_index_in_range(g: RasterGeometry, v: Vertex)
    requires
        g.wf(),
        g.covers(v),
    ensures
        0 <= g.px(v) < g.width,
        0 <= g.py(v) < g.height,
        0 <= pix_index(g, v) < g.width * g.height,
{
    crate::geometry::lemma_round_div_le(g.max_x - g.min_x, g.scale as int);
    crate::geometry::lemma_round_div_le(v.x - g.min_x, g.scale as int);
    crate::geometry::lemma_round_div_ordered(v.x - g.min_x, g.max_x - g.min_x, g.scale as int);
    crate::geometry::lemma_round_div_le(v.y - g.min_y, g.scale as int);
    crate::geometry::lemma_round_div_ordered(v.y - g.min_y, g.max_y - g.min_y, g.scale as int);
    lemma_row_major_in_range(g.px(v), g.py(v), g.width as int, g.height as int);
}

/// Covered vertices all plot into the grid.
pub proof fn lemma_covers_plots_in_range(g: RasterGeometry, vs: Seq<Vertex>)
    requires
        g.wf(),
        forall|j: int| 0 <= j < vs.len() ==> g.covers(#[trigger] vs[j]),
    ensures
        plots_in_range(g, vs),
{
    assert forall|j: int| 0 <= j < vs.len()
        implies 0 <= pix_index(g, #[trigger] vs[j]) < g.width * g.height by {
        lemma_pix_index_in_range(g, vs[j]);
    }
}

/// The grid after plotting one vertex with one drawn byte.
pub open spec fn plot_spec(s: Seq<Rgba>, g: RasterGeometry, color: RGB, v: Vertex, rnd: u8) -> Seq<Rgba> {
    s.update(
        pix_index(g, v),
        Rgba {
            r: color.r,
            g: color.g,
            b: color.b,
            a: alpha_step(s[pix_index(g, v)].a as int, rnd as int) as u8,
        },
    )
}

/// The grid that results from plotting the vertices in order, each with its
/// drawn byte, into an initially transparent grid of the geometry's size.
pub open spec fn raster_fold(g: RasterGeometry, color: RGB, vs: Seq<Vertex>, rnds: Seq<u8>) -> Seq<Rgba>
    decreases vs.len(),
{
    if vs.len() == 0 {
        Seq::new((g.width * g.height) as nat, |i: int| init_pixel(color))
    } else {
        plot_spec(raster_fold(g, color, vs.drop_last(), rnds.drop_last()), g, color, vs.last(), rnds.last())
    }
}

/// No vertex among the first `n` plots into the pixel at index `t`.
pub open spec fn untouched_upto(g: RasterGeometry, vs: Seq<Vertex>, n: int, t: int) -> bool {
    forall|j: int| 0 <= j < n ==> pix_index(g, #[trigger] vs[j]) != t
}

/// Fills a grid of the geometry's size with the vertices, taking for each
/// its drawn byte from `rnds` at the same position: the result is exactly
/// the fold of the accumulation steps, and a pixel no vertex plots into
/// keeps the transparent base color.
pub fn build_raster_with(vs: &Vec<Vertex>, rnds: &Vec<u8>, g: &RasterGeometry, color: RGB) -> (r: PixelBuffer)
    requires
        g.wf(),
        forall|j: int| 0 <= j < vs@.len() ==> g.covers(#[trigger] vs@[j]),
        rnds@.len() == vs@.len(),
        g.width * g.height <= usize::MAX,
    ensures
        r.wf(),
        r.width == g.width,
        r.height == g.height,
        r.color == color,
        r.data@ == raster_fold(*g, color, vs@, rnds@),
        forall|t: int|
            0 <= t < r.data@.len() && untouched_upto(*g, vs@, vs@.len() as int, t)
                ==> r.data@[t] == init_pixel(color),
{
    proof {
        assert(g.width <= g.width * g.height && g.height <= g.width * g.height)
            by (nonlinear_arith)
            requires 1 <= g.width && 1 <= g.height;
    }
    let w = g.width as usize;
    let h = g.height as usize;
    let mut buf = PixelBuffer::new(w, h, color);
    assert(buf.data@ =~= raster_fold(*g, color, vs@.take(0), rnds@.take(0)));
    let mut i: usize = 0;
    while i < vs.len()
        invariant
            i <= vs@.len(),
            rnds@.len() == vs@.len(),
            g.wf(),
            forall|j: int| 0 <= j < vs@.len() ==> g.covers(#[trigger] vs@[j]),
            g.width * g.height <= usize::MAX,
            g.width <= usize::MAX && g.height <= usize::MAX,
            buf.wf(),
            buf.width == g.width,
            buf.height == g.height,
            buf.color == color,
            buf.data@ == raster_fold(*g, color, vs@.take(i as int), rnds@.take(i as int)),
            forall|t: int|
                0 <= t < buf.data@.len() && untouched_upto(*g, vs@, i as int, t)
                    ==> buf.data@[t] == init_pixel(color),
        decreases vs@.len() - i,
    {
        let v = vs[i];
        let rnd = rnds[i];
        let (px, py) = g.project(&v);
        let ghost prev = buf.data@;
        buf.plot(px as usize, py as usize, rnd);
        proof {
            lemma_pix_index_in_range(*g, v);
            assert(buf.data@ == plot_spec(prev, *g, color, v, rnd));
            assert(vs@.take(i + 1).drop_last() =~= vs@.take(i as int));
            assert(rnds@.take(i + 1).drop_last() =~= rnds@.take(i as int));
            assert(vs@.take(i + 1).last() == v);
            assert(rnds@.take(i + 1).last() == rnd);
            assert forall|t: int|
                0 <= t < buf.data@.len() && untouched_upto(*g, vs@, i + 1, t)
                    implies buf.data@[t] == init_pixel(color) by {
                assert(pix_index(*g, vs@[i as int]) != t);
                assert(untouched_upto(*g, vs@, i as int, t));
                assert(buf.data@[t] == prev[t]);
            }
        }
        i = i + 1;
    }
    proof {
        assert(vs@.take(vs@.len() as int) =~= vs@);
        assert(rnds@.take(rnds@.len() as int) =~= rnds@);
    }
    buf
}

/// Relies on rand::random for one uniformly drawn byte; nothing is assumed
/// of its value.
#[verifier::external_body]
fn random_byte() -> u8 {
    rand::random::<u8>()
}

/// Fills a grid of the geometry's size with the vertices, drawing one
/// random byte per vertex: the result is the fold of the accumulation
/// steps for some sequence of drawn bytes, and a pixel no vertex plots
/// into keeps the transparent base color, whatever bytes were drawn.
pub fn build_raster(vs: &Vec<Vertex>, g: &RasterGeometry, color: RGB) -> (r: PixelBuffer)
    requires
        g.wf(),
        forall|j: int| 0 <= j < vs@.len() ==> g.covers(#[trigger] vs@[j]),
        g.width * g.height <= usize::MAX,
    ensures
        r.wf(),
        r.width == g.width,
        r.height == g.height,
        r.color == color,
        exists|rnds: Seq<u8>|
            rnds.len() == vs@.len() && r.data@ == #[trigger] raster_fold(*g, color, vs@, rnds),
        forall|t: int|
            0 <= t < r.data@.len() && untouched_upto(*g, vs@, vs@.len() as int, t)
                ==> r.data@[t] == init_pixel(color),
{
    proof {
        assert(g.width <= g.width * g.height && g.height <= g.width * g.height)
            by (nonlinear_arith)
            requires 1 <= g.width && 1 <= g.height;
    }
    let w = g.width as usize;
    let h = g.height as usize;
    let mut buf = PixelBuffer::new(w, h, color);
    let ghost mut drawn: Seq<u8> = Seq::empty();
    assert(buf.data@ =~= raster_fold(*g, color, vs@.take(0), drawn));
    let mut i: usize = 0;
    while i < vs.len()
        invariant
            i <= vs@.len(),
            drawn.len() == i,
            g.wf(),
            forall|j: int| 0 <= j < vs@.len() ==> g.covers(#[trigger] vs@[j]),
            g.width * g.height <= usize::MAX,
            g.width <= usize::MAX && g.height <= usize::MAX,
            buf.wf(),
            buf.width == g.width,
            buf.height == g.height,
            buf.color == color,
            buf.data@ == raster_fold(*g, color, vs@.take(i as int), drawn),
            forall|t: int|
                0 <= t < buf.data@.len() && untouched_upto(*g, vs@, i as int, t)
                    ==> buf.data@[t] == init_pixel(color),
        decreases vs@.len() - i,
    {
        let v = vs[i];
        let rnd = random_byte();
        let (px, py) = g.project(&v);
        let ghost prev = buf.data@;
        buf.plot(px as usize, py as usize, rnd);
        proof {
            let prev_drawn = drawn;
            drawn = drawn.push(rnd);
            lemma_pix_index_in_range(*g, v);
            assert(buf.data@ == plot_spec(prev, *g, color, v, rnd));
            assert(vs@.take(i + 1).drop_last() =~= vs@.take(i as int));
            assert(drawn.drop_last() =~= prev_drawn);
            assert(vs@.take(i + 1).last() == v);
            assert(drawn.last() == rnd);
            assert forall|t: int|
                0 <= t < buf.data@.len() && untouched_upto(*g, vs@, i + 1, t)
                    implies buf.data@[t] == init_pixel(color) by {
                assert(pix_index(*g, vs@[i as int]) != t);
                assert(untouched_upto(*g, vs@, i as int, t));
                assert(buf.data@[t] == prev[t]);
            }
        }
        i = i + 1;
    }
    proof {
        assert(vs@.take(vs@.len() as int) =~= vs@);
        assert(raster_fold(*g, color, vs@, drawn) == buf.data@);
    }
    buf
}

/// The prefix of an in-range plot sequence is in range.
proof fn lemma_plots_in_range_drop_last(g: RasterGeometry, vs: Seq<Vertex>)
    requires
        vs.len() > 0,
        plots_in_range(g, vs),
    ensures
        plots_in_range(g, vs.drop_last()),
        0 <= pix_index(g, vs.last()) < g.width * g.height,
{
    assert forall|j: int| 0 <= j < vs.drop_last().len()
        implies 0 <= pix_index(g, #[trigger] vs.drop_last()[j]) < g.width * g.height by {
        assert(vs.drop_last()[j] == vs[j]);
    }
    assert(vs.last() == vs[vs.len() - 1]);
}

/// The fold's grid keeps the geometry's size.
pub proof fn lemma_raster_fold_len(g: RasterGeometry, color: RGB, vs: Seq<Vertex>, rnds: Seq<u8>)
    requires
        plots_in_range(g, vs),
    ensures
        raster_fold(g, color, vs, rnds).len() == (g.width * g.height) as nat,
    decreases vs.len(),
{
    if vs.len() > 0 {
        lemma_plots_in_range_drop_last(g, vs);
        lemma_raster_fold_len(g, color, vs.drop_last(), rnds.drop_last());
        let prev = raster_fold(g, color, vs.drop_last(), rnds.drop_last());
        assert(raster_fold(g, color, vs, rnds) == plot_spec(prev, g, color, vs.last(), rnds.last()));
        assert(plot_spec(prev, g, color, vs.last(), rnds.last()).len() == prev.len());
    }
}

/// Every alpha the fold produces is a multiple of ten and at most 250.
pub proof fn lemma_raster_fold_alpha_wf(g: RasterGeometry, color: RGB, vs: Seq<Vertex>, rnds: Seq<u8>)
    requires
        plots_in_range(g, vs),
    ensures
        forall|t: int| 0 <= t < raster_fold(g, color, vs, rnds).len() ==> {
            &&& (#[trigger] raster_fold(g, color, vs, rnds)[t]).a % 10 == 0
            &&& raster_fold(g, color, vs, rnds)[t].a <= 250
        },
    decreases vs.len(),
{
    if vs.len() > 0 {
        lemma_plots_in_range_drop_last(g, vs);
        lemma_raster_fold_alpha_wf(g, color, vs.drop_last(), rnds.drop_last());
        lemma_raster_fold_len(g, color, vs.drop_last(), rnds.drop_last());
        let prev = raster_fold(g, color, vs.drop_last(), rnds.drop_last());
        let cur = raster_fold(g, color, vs, rnds);
        let k = pix_index(g, vs.last());
        assert(cur == plot_spec(prev, g, color, vs.last(), rnds.last()));
        assert forall|t: int| 0 <= t < cur.len() implies (#[trigger] cur[t]).a % 10 == 0
            && cur[t].a <= 250 by {
            assert(cur.len() == prev.len());
            if t == k {
                assert(prev[k].a % 10 == 0 && prev[k].a <= 250);
            } else {
                assert(cur[t] == prev[t]);
                assert(prev[t].a % 10 == 0 && prev[t].a <= 250);
            }
        }
    }
}

/// Density accumulation at one pixel: when every vertex plots into the same
/// pixel, that pixel's alpha after the fold is exactly the accumulator's
/// trajectory over the drawn bytes — non-decreasing in the number of hits
/// and never above 250.
pub proof fn lemma_same_pixel_trajectory(
    g: RasterGeometry,
    color: RGB,
    vs: Seq<Vertex>,
    rnds: Seq<u8>,
    t: int,
)
    requires
        rnds.len() == vs.len(),
        0 <= t < g.width * g.height,
        forall|j: int| 0 <= j < vs.len() ==> pix_index(g, #[trigger] vs[j]) == t,
    ensures
        raster_fold(g, color, vs, rnds)[t].a == alpha_after(0, rnds),
    decreases vs.len(),
{
    lemma_raster_fold_len(g, color, vs, rnds);
    if vs.len() == 0 {
    } else {
        lemma_same_pixel_trajectory(g, color, vs.drop_last(), rnds.drop_last(), t);
        lemma_raster_fold_len(g, color, vs.drop_last(), rnds.drop_last());
        lemma_alpha_bounded(0, rnds.drop_last());
        assert(pix_index(g, vs.last()) == t);
    }
}

} // verus!
