//! The tile partitioner: enumerates the image grid into an ordered sequence
//! of tiles in raster-scan order, assigning each its stable global index.

use vstd::prelude::*;
use vstd::arithmetic::div_mod::{
    lemma_fundamental_div_mod, lemma_fundamental_div_mod_converse_div,
    lemma_fundamental_div_mod_converse_mod,
};

verus! {

/// A rectangular sub-region of the image: the unit of scheduling.
///
/// `index` is the tile's position in raster-scan order over the full grid,
/// assigned once at partition time and never recomputed. `w` and `h` keep the
/// requested tile size even where the tile overruns the right or bottom image
/// edge; clipping happens at render time.
#[derive(Clone, Copy, PartialEq, Eq, Structural, Debug)]
pub struct Tile {
    pub index: u32,
    pub x: u32,
    pub y: u32,
    pub w: u32,
    pub h: u32,
}

/// The dimensions an executor accepts: image and tile sides all positive.
pub open spec fn valid_config(width: u32, height: u32, tile_w: u32, tile_h: u32) -> bool {
    width > 0 && height > 0 && tile_w > 0 && tile_h > 0
}

/// Machine bound under which every tile index and pixel count fits in `u32`.
pub open spec fn dims_in_range(width: u32, height: u32) -> bool {
    width * height <= u32::MAX
}

/// Number of tile columns: the image width over the tile width, rounded up.
pub open spec fn tiles_across(width: u32, tile_w: u32) -> int {
    (width + tile_w - 1) / (tile_w as int)
}

/// Number of tile rows: the image height over the tile height, rounded up.
pub open spec fn tiles_down(height: u32, tile_h: u32) -> int {
    (height + tile_h - 1) / (tile_h as int)
}

/// How many tiles the grid partitions into.
pub open spec fn tile_count(width: u32, height: u32, tile_w: u32, tile_h: u32) -> int {
    tiles_across(width, tile_w) * tiles_down(height, tile_h)
}

/// The tile at raster position `i`: row `i / columns`, column `i % columns`.
pub open spec fn tile_model(width: u32, tile_w: u32, tile_h: u32, i: int) -> Tile {
    let c = tiles_across(width, tile_w);
    Tile {
        index: i as u32,
        x: ((i % c) * tile_w) as u32,
        y: ((i / c) * tile_h) as u32,
        w: tile_w,
        h: tile_h,
    }
}

/// The full tile sequence in raster order.
pub open spec fn tiles_model(width: u32, height: u32, tile_w: u32, tile_h: u32) -> Seq<Tile> {
    Seq::new(
        tile_count(width, height, tile_w, tile_h) as nat,
        |i: int| tile_model(width, tile_w, tile_h, i),
    )
}

/// Whether pixel `(px, py)` lies inside the tile's requested (unclipped) rectangle.
pub open spec fn tile_contains(t: Tile, px: int, py: int) -> bool {
    t.x <= px < t.x + t.w && t.y <= py < t.y + t.h
}

/// The raster index of the unique tile whose rectangle holds pixel `(px, py)`.
pub open spec fn covering_index(
    width: u32,
    tile_w: u32,
    tile_h: u32,
    px: int,
    py: int,
) -> int {
    (py / (tile_h as int)) * tiles_across(width, tile_w) + px / (tile_w as int)
}

/// Dividing a value that lies below `b * d` by `d` lands below `b`.
proof fn lemma_div_below(a: int, b: int, d: int)
    requires
        0 <= a,
        d > 0,
        a < b * d,
    ensures
        0 <= a / d < b,
{
    lemma_fundamental_div_mod(a, d);
    vstd::arithmetic::div_mod::lemma_mod_bound(a, d);
    vstd::arithmetic::div_mod::lemma_div_pos_is_pos(a, d);
    if a / d >= b {
        assert(d * (a / d) >= d * b) by (nonlinear_arith)
            requires a / d >= b, d > 0,
        ;
        assert(b * d == d * b) by (nonlinear_arith);
        assert(false);
    }
}

/// A single pixel lies in the tile at its covering index and in no other.
proof fn lemma_cover_one(width: u32, height: u32, tile_w: u32, tile_h: u32, px: int, py: int)
    requires
        valid_config(width, height, tile_w, tile_h),
        dims_in_range(width, height),
        0 <= px < width,
        0 <= py < height,
    ensures
        ({
            let i = covering_index(width, tile_w, tile_h, px, py);
            &&& 0 <= i < tile_count(width, height, tile_w, tile_h)
            &&& tile_contains(tile_model(width, tile_w, tile_h, i), px, py)
            &&& forall|j: int|
                0 <= j < tile_count(width, height, tile_w, tile_h)
                    && tile_contains(tile_model(width, tile_w, tile_h, j), px, py) ==> j == i
        }),
{
    let cols = tiles_across(width, tile_w);
    let rows = tiles_down(height, tile_h);
    let tw = tile_w as int;
    let th = tile_h as int;
    lemma_grid_bounds(width, height, tile_w, tile_h);
    lemma_ceil_div(width as int, tile_w as int);
    lemma_ceil_div(height as int, tile_h as int);
    let tc = px / tw;
    let tr = py / th;
    assert(px < cols * tw) by (nonlinear_arith)
        requires px < width, cols * tw >= width,
    ;
    assert(py < rows * th) by (nonlinear_arith)
        requires py < height, rows * th >= height,
    ;
    lemma_div_below(px, cols, tw);
    lemma_div_below(py, rows, th);
    lemma_fundamental_div_mod(px, tw);
    vstd::arithmetic::div_mod::lemma_mod_bound(px, tw);
    lemma_fundamental_div_mod(py, th);
    vstd::arithmetic::div_mod::lemma_mod_bound(py, th);
    let i = tr * cols + tc;
    assert(0 <= tr * cols + tc < cols * rows) by (nonlinear_arith)
        requires 0 <= tc < cols, 0 <= tr < rows,
    ;
    lemma_fundamental_div_mod_converse_mod(i, cols, tr, tc);
    lemma_fundamental_div_mod_converse_div(i, cols, tr, tc);
    let t = tile_model(width, tile_w, tile_h, i);
    assert(tc * tw <= px < tc * tw + tw) by (nonlinear_arith)
        requires px == tw * tc + px % tw, 0 <= px % tw < tw,
    ;
    assert(tr * th <= py < tr * th + th) by (nonlinear_arith)
        requires py == th * tr + py % th, 0 <= py % th < th,
    ;
    assert(t.x == tc * tw && t.y == tr * th);
    assert(tile_contains(t, px, py));
    assert forall|j: int|
        0 <= j < tile_count(width, height, tile_w, tile_h)
            && tile_contains(tile_model(width, tile_w, tile_h, j), px, py) implies j == i by {
        let c0 = j % cols;
        let r0 = j / cols;
        lemma_fundamental_div_mod(j, cols);
        vstd::arithmetic::div_mod::lemma_mod_bound(j, cols);
        lemma_div_below(j, rows, cols);
        let u = tile_model(width, tile_w, tile_h, j);
        assert(c0 * tw + tw <= cols * tw) by (nonlinear_arith)
            requires c0 < cols, tw >= 0,
        ;
        assert(r0 * th + th <= rows * th) by (nonlinear_arith)
            requires r0 < rows, th >= 0,
        ;
        assert((cols - 1) * tw == cols * tw - tw) by (nonlinear_arith);
        assert((rows - 1) * th == rows * th - th) by (nonlinear_arith);
        assert(0 <= c0 * tw) by (nonlinear_arith)
            requires 0 <= c0, 0 <= tw,
        ;
        assert(0 <= r0 * th) by (nonlinear_arith)
            requires 0 <= r0, 0 <= th,
        ;
        assert(c0 * tw <= width - 1);
        assert(r0 * th <= height - 1);
        assert(u.x == c0 * tw && u.y == r0 * th);
        assert(c0 * tw <= px < c0 * tw + tw);
        assert(r0 * th <= py < r0 * th + th);
        assert(px == c0 * tw + (px - c0 * tw)) by (nonlinear_arith);
        lemma_fundamental_div_mod_converse_div(px, tw, c0, px - c0 * tw);
        lemma_fundamental_div_mod_converse_div(py, th, r0, py - r0 * th);
        assert(c0 == tc && r0 == tr);
        assert(j == cols * r0 + c0);
        assert(cols * tr == tr * cols) by (nonlinear_arith);
    }
}

/// The partitioner's tiles exactly cover the grid: tile `i` carries index `i`,
/// every in-bounds pixel lies in the tile at its covering index, and in no
/// other tile (no overlaps, no gaps).
pub proof fn lemma_partition_covers_grid(width: u32, height: u32, tile_w: u32, tile_h: u32)
    requires
        valid_config(width, height, tile_w, tile_h),
        dims_in_range(width, height),
    ensures
        forall|i: int|
            0 <= i < tile_count(width, height, tile_w, tile_h)
                ==> #[trigger] tiles_model(width, height, tile_w, tile_h)[i].index == i,
        forall|px: int, py: int|
            0 <= px < width && 0 <= py < height ==> {
                let i = #[trigger] covering_index(width, tile_w, tile_h, px, py);
                &&& 0 <= i < tile_count(width, height, tile_w, tile_h)
                &&& tile_contains(tiles_model(width, height, tile_w, tile_h)[i], px, py)
            },
        forall|px: int, py: int, j: int|
            0 <= px < width && 0 <= py < height
                && 0 <= j < tile_count(width, height, tile_w, tile_h)
                && #[trigger] tile_contains(tiles_model(width, height, tile_w, tile_h)[j], px, py)
                ==> j == covering_index(width, tile_w, tile_h, px, py),
{
    lemma_grid_bounds(width, height, tile_w, tile_h);
    assert forall|px: int, py: int| 0 <= px < width && 0 <= py < height implies {
        let i = #[trigger] covering_index(width, tile_w, tile_h, px, py);
        &&& 0 <= i < tile_count(width, height, tile_w, tile_h)
        &&& tile_contains(tiles_model(width, height, tile_w, tile_h)[i], px, py)
    } by {
        lemma_cover_one(width, height, tile_w, tile_h, px, py);
    }
    assert forall|px: int, py: int, j: int|
        0 <= px < width && 0 <= py < height
            && 0 <= j < tile_count(width, height, tile_w, tile_h)
            && #[trigger] tile_contains(tiles_model(width, height, tile_w, tile_h)[j], px, py)
            implies j == covering_index(width, tile_w, tile_h, px, py) by {
        lemma_cover_one(width, height, tile_w, tile_h, px, py);
    }
}

/// The ceiling division `(n + d - 1) / d` bounds `n` from above by `d` times it,
/// and is itself at most `n` for positive `n` and `d`.
pub(crate) proof fn lemma_ceil_div(n: int, d: int)
    requires
        n >= 1,
        d >= 1,
    ensures
        1 <= (n + d - 1) / d <= n,
        ((n + d - 1) / d) * d >= n,
        ((n + d - 1) / d - 1) * d <= n - 1,
{
    let q = (n + d - 1) / d;
    let r = (n + d - 1) % d;
    lemma_fundamental_div_mod(n + d - 1, d);
    assert(n + d - 1 == d * q + r);
    assert(0 <= r < d) by {
        vstd::arithmetic::div_mod::lemma_mod_bound(n + d - 1, d);
    }
    assert(q * d == n + d - 1 - r) by (nonlinear_arith)
        requires n + d - 1 == d * q + r,
    ;
    assert(q * d >= n);
    assert((q - 1) * d == q * d - d) by (nonlinear_arith);
    assert((q - 1) * d <= n - 1);
    assert(q >= 1) by (nonlinear_arith)
        requires q * d >= n, n >= 1, d >= 1,
    ;
    assert(q <= n) by (nonlinear_arith)
        requires (q - 1) * d <= n - 1, d >= 1, q >= 1,
    ;
}

/// The grid's tile columns and rows are positive, and the tile count is
/// bounded by the pixel count of the image.
pub proof fn lemma_grid_bounds(width: u32, height: u32, tile_w: u32, tile_h: u32)
    requires
        valid_config(width, height, tile_w, tile_h),
    ensures
        1 <= tiles_across(width, tile_w) <= width,
        1 <= tiles_down(height, tile_h) <= height,
        tile_count(width, height, tile_w, tile_h) <= width * height,
        tile_count(width, height, tile_w, tile_h) >= 1,
{
    lemma_ceil_div(width as int, tile_w as int);
    lemma_ceil_div(height as int, tile_h as int);
    let c = tiles_across(width, tile_w);
    let r = tiles_down(height, tile_h);
    assert(c * r <= width * height) by (nonlinear_arith)
        requires 1 <= c <= width, 1 <= r <= height,
    ;
    assert(c * r >= 1) by (nonlinear_arith)
        requires c >= 1, r >= 1,
    ;
}

/// Ceiling division by the tile side, written without overflow on `u32`.
fn ceil_div_u32(n: u32, d: u32) -> (q: u32)
    requires
        n >= 1,
        d >= 1,
    ensures
        q == (n + d - 1) / (d as int),
{
    proof {
        let qq = (n - 1) as int / d as int;
        let rr = (n - 1) as int % d as int;
        lemma_fundamental_div_mod((n - 1) as int, d as int);
        assert(0 <= rr < d) by {
            vstd::arithmetic::div_mod::lemma_mod_bound((n - 1) as int, d as int);
        }
        assert((n + d - 1) as int == (qq + 1) * (d as int) + rr) by (nonlinear_arith)
            requires (n - 1) as int == d as int * qq + rr,
        ;
        lemma_fundamental_div_mod_converse_div((n + d - 1) as int, d as int, qq + 1, rr);
        lemma_ceil_div(n as int, d as int);
    }
    (n - 1) / d + 1
}

/// Enumerates the full grid into tiles in raster order (rows outer, columns
/// inner), assigning `index` as the position in this single enumeration.
pub fn partition(width: u32, height: u32, tile_w: u32, tile_h: u32) -> (tiles: Vec<Tile>)
    requires
        valid_config(width, height, tile_w, tile_h),
        dims_in_range(width, height),
    ensures
        tiles@ == tiles_model(width, height, tile_w, tile_h),
{
    proof {
        lemma_grid_bounds(width, height, tile_w, tile_h);
    }
    let cols: u32 = ceil_div_u32(width, tile_w);
    let rows: u32 = ceil_div_u32(height, tile_h);
    let ghost count = tile_count(width, height, tile_w, tile_h);
    let mut tiles: Vec<Tile> = Vec::new();
    let mut r: u32 = 0;
    while r < rows
        invariant
            cols == tiles_across(width, tile_w),
            rows == tiles_down(height, tile_h),
            count == cols * rows <= u32::MAX,
            valid_config(width, height, tile_w, tile_h),
            0 <= r <= rows,
            tiles@.len() == r * cols,
            forall|j: int| 0 <= j < tiles@.len()
                ==> tiles@[j] == tile_model(width, tile_w, tile_h, j),
        decreases rows - r,
    {
        let mut c: u32 = 0;
        proof {
            assert(r * cols + cols <= rows * cols) by (nonlinear_arith)
                requires r < rows, cols >= 0,
            ;
            assert(cols * rows == rows * cols) by (nonlinear_arith);
        }
        while c < cols
            invariant
                cols == tiles_across(width, tile_w),
                rows == tiles_down(height, tile_h),
                count == cols * rows <= u32::MAX,
                valid_config(width, height, tile_w, tile_h),
                r < rows,
                0 <= c <= cols,
                r * cols + cols <= rows * cols,
                cols * rows == rows * cols,
                tiles@.len() == r * cols + c,
                forall|j: int| 0 <= j < tiles@.len()
                    ==> tiles@[j] == tile_model(width, tile_w, tile_h, j),
            decreases cols - c,
        {
            proof {
                assert(r * cols + c < count);
            }
            let idx: u32 = r * cols + c;
            proof {
                assert(c * tile_w + tile_w <= cols * tile_w) by (nonlinear_arith)
                    requires c < cols, tile_w >= 0,
                ;
                assert(cols * tile_w <= width + tile_w - 1) by {
                    lemma_ceil_div(width as int, tile_w as int);
                    assert((cols - 1) * tile_w <= width - 1);
                    assert(cols * tile_w == (cols - 1) * tile_w + tile_w) by (nonlinear_arith);
                }
                assert(r * tile_h + tile_h <= rows * tile_h) by (nonlinear_arith)
                    requires r < rows, tile_h >= 0,
                ;
                assert(rows * tile_h <= height + tile_h - 1) by {
                    lemma_ceil_div(height as int, tile_h as int);
                    assert((rows - 1) * tile_h <= height - 1);
                    assert(rows * tile_h == (rows - 1) * tile_h + tile_h) by (nonlinear_arith);
                }
            }
            let x: u32 = c * tile_w;
            let y: u32 = r * tile_h;
            proof {
                assert(idx as int == (r as int) * (cols as int) + c as int);
                lemma_fundamental_div_mod_converse_mod(idx as int, cols as int, r as int, c as int);
                lemma_fundamental_div_mod_converse_div(idx as int, cols as int, r as int, c as int);
                assert(tile_model(width, tile_w, tile_h, idx as int) == (Tile {
                    index: idx,
                    x,
                    y,
                    w: tile_w,
                    h: tile_h,
                }));
            }
            tiles.push(Tile { index: idx, x, y, w: tile_w, h: tile_h });
            c = c + 1;
        }
        r = r + 1;
        proof {
            assert(r * cols == (r - 1) * cols + cols) by (nonlinear_arith);
        }
    }
    proof {
        assert(cols * rows == rows * cols) by (nonlinear_arith);
        assert(tiles@.len() == count);
        assert(tiles@ =~= tiles_model(width, height, tile_w, tile_h));
    }
    tiles
}

} // verus!

