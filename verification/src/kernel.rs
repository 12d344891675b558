//! The per-pixel compute kernel and the tile renderer with its exact
//! clipping semantics at the image edges.

use vstd::prelude::*;
use vstd::arithmetic::div_mod::{
    lemma_fundamental_div_mod_converse_div, lemma_fundamental_div_mod_converse_mod,
};

verus! {

/// A per-pixel compute kernel: maps a pixel coordinate to an iteration count.
///
/// The executors are generic over this trait. The escape-time kernel itself
/// works in floating point, which this crate does not admit, so it lives with
/// the embedding as an implementation of this trait; `value` is the abstract
/// function of the coordinates that `eval` must compute, which makes every
/// conforming kernel deterministic.
pub trait Kernel {
    /// The value the kernel assigns to pixel `(x, y)`.
    spec fn value(&self, x: u32, y: u32, width: u32, height: u32, max_iter: u16) -> u16;

    /// Computes the pixel value.
    fn eval(&self, x: u32, y: u32, width: u32, height: u32, max_iter: u16) -> (r: u16)
        ensures
            r == self.value(x, y, width, height, max_iter),
    ;
}

/// A simple integer kernel: the pixel coordinate sum, wrapped to 16 bits. It
/// distinguishes pixels without floating point and drives the tests.
pub struct DemoKernel;

impl Kernel for DemoKernel {
    open spec fn value(&self, x: u32, y: u32, width: u32, height: u32, max_iter: u16) -> u16 {
        ((x + y) % 0x10000) as u16
    }

    fn eval(&self, x: u32, y: u32, width: u32, height: u32, max_iter: u16) -> (r: u16) {
        let s: u64 = x as u64 + y as u64;
        (s % 0x10000) as u16
    }
}

/// Columns of the tile at `tile_x` that lie inside the image width: the
/// requested `tile_w`, cut down at the right edge, zero past it.
pub open spec fn clipped_cols(width: u32, tile_x: u32, tile_w: u32) -> int {
    if tile_x >= width {
        0
    } else if tile_x + tile_w <= width {
        tile_w as int
    } else {
        width - tile_x
    }
}

/// Rows of the tile at `tile_y` that lie inside the image height.
pub open spec fn clipped_rows(height: u32, tile_y: u32, tile_h: u32) -> int {
    if tile_y >= height {
        0
    } else if tile_y + tile_h <= height {
        tile_h as int
    } else {
        height - tile_y
    }
}

/// How many pixels of the tile are actually computed: the clipped rectangle.
pub open spec fn pixel_count(
    width: u32,
    height: u32,
    tile_x: u32,
    tile_y: u32,
    tile_w: u32,
    tile_h: u32,
) -> int {
    clipped_cols(width, tile_x, tile_w) * clipped_rows(height, tile_y, tile_h)
}

/// The pixel buffer a tile must yield: kernel values over the clipped
/// rectangle, row-major.
pub open spec fn tile_pixels<K: Kernel>(
    k: K,
    width: u32,
    height: u32,
    tile_x: u32,
    tile_y: u32,
    tile_w: u32,
    tile_h: u32,
    max_iter: u16,
) -> Seq<u16> {
    let cc = clipped_cols(width, tile_x, tile_w);
    let cr = clipped_rows(height, tile_y, tile_h);
    Seq::new(
        (cc * cr) as nat,
        |j: int| k.value((tile_x + j % cc) as u32, (tile_y + j / cc) as u32, width, height, max_iter),
    )
}

/// A tile's pixel count is bounded by the image's, so it fits in `u32`.
pub proof fn lemma_pixel_count_bound(
    width: u32,
    height: u32,
    tile_x: u32,
    tile_y: u32,
    tile_w: u32,
    tile_h: u32,
)
    ensures
        0 <= pixel_count(width, height, tile_x, tile_y, tile_w, tile_h) <= width * height,
{
    let cc = clipped_cols(width, tile_x, tile_w);
    let cr = clipped_rows(height, tile_y, tile_h);
    assert(0 <= cc <= width);
    assert(0 <= cr <= height);
    assert(0 <= cc * cr <= width * height) by (nonlinear_arith)
        requires 0 <= cc <= width, 0 <= cr <= height,
    ;
}

/// Renders one tile: walks the tile's rows and columns in row-major order,
/// skipping coordinates outside the image, and collects the kernel's value
/// for each in-bounds pixel. A tile overrunning the bottom or right edge
/// yields a buffer shorter than `tile_w * tile_h`: rows past the image height
/// are omitted entirely, trailing columns past the image width per row.
pub fn render_tile<K: Kernel>(
    kernel: &K,
    width: u32,
    height: u32,
    tile_x: u32,
    tile_y: u32,
    tile_w: u32,
    tile_h: u32,
    max_iter: u16,
) -> (out: Vec<u16>)
    ensures
        out@ == tile_pixels(*kernel, width, height, tile_x, tile_y, tile_w, tile_h, max_iter),
{
    let ghost cc = clipped_cols(width, tile_x, tile_w);
    let ghost cr = clipped_rows(height, tile_y, tile_h);
    let ghost model = tile_pixels(*kernel, width, height, tile_x, tile_y, tile_w, tile_h, max_iter);
    let mut out: Vec<u16> = Vec::new();
    let mut dy: u32 = 0;
    while dy < tile_h && tile_y + dy < height
        invariant
            cc == clipped_cols(width, tile_x, tile_w),
            cr == clipped_rows(height, tile_y, tile_h),
            model == tile_pixels(*kernel, width, height, tile_x, tile_y, tile_w, tile_h, max_iter),
            model.len() == cc * cr,
            0 <= dy <= cr,
            out@.len() == dy * cc,
            forall|j: int| 0 <= j < out@.len() ==> out@[j] == model[j],
        decreases cr - dy,
    {
        let y: u32 = tile_y + dy;
        let mut dx: u32 = 0;
        proof {
            assert(dy * cc + cc <= cr * cc) by (nonlinear_arith)
                requires dy < cr, cc >= 0,
            ;
            assert(cc * cr == cr * cc) by (nonlinear_arith);
        }
        while dx < tile_w && tile_x + dx < width
            invariant
                cc == clipped_cols(width, tile_x, tile_w),
                cr == clipped_rows(height, tile_y, tile_h),
                model == tile_pixels(*kernel, width, height, tile_x, tile_y, tile_w, tile_h, max_iter),
                model.len() == cc * cr,
                cc * cr == cr * cc,
                dy < cr,
                y == tile_y + dy,
                0 <= dx <= cc,
                dy * cc + cc <= cr * cc,
                out@.len() == dy * cc + dx,
                forall|j: int| 0 <= j < out@.len() ==> out@[j] == model[j],
            decreases cc - dx,
        {
            let x: u32 = tile_x + dx;
            let v = kernel.eval(x, y, width, height, max_iter);
            proof {
                let j = dy * cc + dx;
                lemma_fundamental_div_mod_converse_mod(j, cc, dy as int, dx as int);
                lemma_fundamental_div_mod_converse_div(j, cc, dy as int, dx as int);
                assert(j < model.len());
                assert(model[j] == kernel.value(x, y, width, height, max_iter));
            }
            out.push(v);
            dx = dx + 1;
        }
        proof {
            assert(dx == cc);
            assert((dy + 1) * cc == dy * cc + cc) by (nonlinear_arith);
        }
        dy = dy + 1;
    }
    proof {
        assert(dy == cr);
        assert(out@.len() == cr * cc);
        assert(out@ =~= model);
    }
    out
}

} // verus!
