//! Canvas geometry, the pixel-to-plane mapping and the computation of one block.
use vstd::prelude::*;
use crate::fix::{Fix, FRAC_BITS};
use crate::escape::{is_member, is_mandelbrot_member};

verus! {

/// A pixel coordinate handed to the renderer.
#[derive(Clone, Copy, Debug, PartialEq, Eq, Structural, Hash)]
pub struct Point {
    pub x: i32,
    pub y: i32,
}

/// Canvas size and block size, in pixels.
#[derive(Clone, Copy, Debug, PartialEq, Eq, Structural)]
pub struct Canvas {
    pub width: i32,
    pub height: i32,
    pub block_width: i32,
    pub block_height: i32,
}

/// Pixels per unit of the complex plane, as a power of two: `2^8`.
pub const PIXEL_SHIFT: u32 = 8;

/// Raw fixed-point value of one pixel step: `2^(FRAC_BITS - PIXEL_SHIFT)`.
pub const PIXEL_STEP: i32 = 32768;

impl Canvas {
    /// Block sizes divide the canvas and the half canvas, and every pixel maps into
    /// the sample range of the evaluator.
    pub open spec fn wf(self) -> bool {
        &&& 0 < self.width <= 1024
        &&& 0 < self.height <= 1024
        &&& 0 < self.block_width
        &&& 0 < self.block_height
        &&& self.width % self.block_width == 0
        &&& self.height % self.block_height == 0
        &&& (self.height / 2) as int % self.block_height as int == 0
    }

    /// The block with top-left corner `(x0, y0)` lies inside the canvas.
    pub open spec fn block_inside(self, x0: int, y0: int) -> bool {
        &&& 0 <= x0
        &&& x0 + self.block_width <= self.width
        &&& 0 <= y0
        &&& y0 + self.block_height <= self.height
    }
}

/// Real part of the sample of pixel column `x`: the column `3/4` of the way across is `0`.
pub open spec fn sample_re(c: Canvas, x: int) -> int {
    (x - 3 * (c.width / 4)) * PIXEL_STEP
}

/// Imaginary part of the sample of pixel row `y`: the middle row is `0`.
pub open spec fn sample_im(c: Canvas, y: int) -> int {
    (y - c.height / 2) * PIXEL_STEP
}

/// The points emitted for pixel `(x, y)`: the pixel and its mirror `(x, height - y)`
/// when its sample is a member, nothing otherwise.
pub open spec fn pixel_points(c: Canvas, x: int, y: int) -> Seq<Point> {
    if is_member(sample_re(c, x), sample_im(c, y)) {
        seq![Point { x: x as i32, y: y as i32 }, Point { x: x as i32, y: (c.height - y) as i32 }]
    } else {
        seq![]
    }
}

/// The points of the first `n` pixels of column `x`, from row `y0` down.
pub open spec fn column_points(c: Canvas, x: int, y0: int, n: nat) -> Seq<Point>
    decreases n,
{
    if n == 0 {
        seq![]
    } else {
        column_points(c, x, y0, (n - 1) as nat) + pixel_points(c, x, y0 + n - 1)
    }
}

/// The points of the first `m` columns of the block at `(x0, y0)`.
pub open spec fn columns_points(c: Canvas, x0: int, y0: int, m: nat) -> Seq<Point>
    decreases m,
{
    if m == 0 {
        seq![]
    } else {
        columns_points(c, x0, y0, (m - 1) as nat) + column_points(
            c,
            x0 + m - 1,
            y0,
            c.block_height as nat,
        )
    }
}

/// The points of the whole block at `b`, column by column, each column top to bottom.
pub open spec fn block_points(c: Canvas, b: (i32, i32)) -> Seq<Point> {
    columns_points(c, b.0 as int, b.1 as int, c.block_width as nat)
}

/// `v << 15` on the values that pixel offsets take.
proof fn lemma_shl_pixel(v: i32)
    requires
        -4096 <= v <= 4096,
    ensures
        v << 15u32 == v * 32768,
{
    assert(-4096 <= v <= 4096 ==> v << 15u32 == v * 32768) by (bit_vector);
}

/// Appends to `points` the points of every pixel of the block at `(x0, y0)`.
pub fn compute_block(canvas: &Canvas, x0: i32, y0: i32, points: &mut Vec<Point>)
    requires
        canvas.wf(),
        canvas.block_inside(x0 as int, y0 as int),
    ensures
        final(points)@ == old(points)@ + block_points(*canvas, (x0, y0)),
{
    let x_end = x0 + canvas.block_width;
    let y_end = y0 + canvas.block_height;
    let x_offset = 3 * (canvas.width / 4);
    let y_offset = canvas.height / 2;
    let mut x = x0;
    while x < x_end
        invariant
            canvas.wf(),
            canvas.block_inside(x0 as int, y0 as int),
            x_end == x0 + canvas.block_width,
            y_end == y0 + canvas.block_height,
            x_offset == 3 * (canvas.width / 4),
            y_offset == canvas.height / 2,
            x0 <= x <= x_end,
            points@ == old(points)@ + columns_points(*canvas, x0 as int, y0 as int, (x - x0) as nat),
        decreases x_end - x,
    {
        let ghost before = points@;
        let mut y = y0;
        while y < y_end
            invariant
                canvas.wf(),
                canvas.block_inside(x0 as int, y0 as int),
                y_end == y0 + canvas.block_height,
                x_offset == 3 * (canvas.width / 4),
                y_offset == canvas.height / 2,
                x0 <= x < x0 + canvas.block_width,
                y0 <= y <= y_end,
                points@ == before + column_points(*canvas, x as int, y0 as int, (y - y0) as nat),
            decreases y_end - y,
        {
            proof {
                lemma_shl_pixel((x - x_offset) as i32);
                lemma_shl_pixel((y - y_offset) as i32);
            }
            let re = Fix((x - x_offset) << (FRAC_BITS - PIXEL_SHIFT));
            let im = Fix((y - y_offset) << (FRAC_BITS - PIXEL_SHIFT));
            let ghost prev = points@;
            if is_mandelbrot_member(re, im) {
                points.push(Point { x, y });
                points.push(Point { x, y: canvas.height - y });
            }
            assert(points@ == prev + pixel_points(*canvas, x as int, y as int));
            y = y + 1;
        }
        assert(columns_points(*canvas, x0 as int, y0 as int, (x + 1 - x0) as nat)
            == columns_points(*canvas, x0 as int, y0 as int, (x - x0) as nat) + column_points(
            *canvas,
            x as int,
            y0 as int,
            canvas.block_height as nat,
        ));
        x = x + 1;
    }
}

} // verus!
