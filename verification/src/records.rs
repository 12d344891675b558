//! The shared result shapes: the durable per-tile record returned to the
//! caller and the transient update handed to the sink.

use vstd::prelude::*;
use crate::kernel::{pixel_count, tile_pixels, Kernel};
use crate::tiles::Tile;

verus! {

/// The durable, lightweight record of one completed tile: identity, geometry,
/// timing and the number of pixels actually computed — no pixel data.
#[derive(Clone, Copy, Debug)]
pub struct TaskRecord {
    pub task_id: u32,
    pub tile_x: u32,
    pub tile_y: u32,
    pub tile_w: u32,
    pub tile_h: u32,
    pub duration_ms: u128,
    pub pixels_computed: u32,
}

/// The transient value passed to the sink: the record's identity, geometry
/// and timing plus the tile's pixel buffer. Not retained after the sink call.
#[derive(Clone, Debug)]
pub struct TileUpdate {
    pub task_id: u32,
    pub tile_x: u32,
    pub tile_y: u32,
    pub tile_w: u32,
    pub tile_h: u32,
    pub data: Vec<u16>,
    pub duration_ms: u128,
}

/// The mathematical image of a `TileUpdate`.
pub ghost struct TileUpdateView {
    pub task_id: u32,
    pub tile_x: u32,
    pub tile_y: u32,
    pub tile_w: u32,
    pub tile_h: u32,
    pub data: Seq<u16>,
    pub duration_ms: u128,
}

impl View for TileUpdate {
    type V = TileUpdateView;

    open spec fn view(&self) -> TileUpdateView {
        TileUpdateView {
            task_id: self.task_id,
            tile_x: self.tile_x,
            tile_y: self.tile_y,
            tile_w: self.tile_w,
            tile_h: self.tile_h,
            data: self.data@,
            duration_ms: self.duration_ms,
        }
    }
}

/// What a successful computation of tile `t` must record: identity and
/// geometry from the tile (the requested size, not the clipped one), pixel
/// count from the clipped rectangle. The measured duration is wall-clock time
/// and is not constrained.
pub open spec fn record_for(r: TaskRecord, t: Tile, width: u32, height: u32) -> bool {
    &&& r.task_id == t.index
    &&& r.tile_x == t.x
    &&& r.tile_y == t.y
    &&& r.tile_w == t.w
    &&& r.tile_h == t.h
    &&& r.pixels_computed == pixel_count(width, height, t.x, t.y, t.w, t.h)
}

/// What the sink must observe for tile `t` under kernel `k`: the tile's
/// identity and geometry, and exactly the clipped pixel buffer the kernel
/// defines. The duration is not constrained.
pub open spec fn update_for<K: Kernel>(
    u: TileUpdateView,
    k: K,
    t: Tile,
    width: u32,
    height: u32,
    max_iter: u16,
) -> bool {
    &&& u.task_id == t.index
    &&& u.tile_x == t.x
    &&& u.tile_y == t.y
    &&& u.tile_w == t.w
    &&& u.tile_h == t.h
    &&& u.data == tile_pixels(k, width, height, t.x, t.y, t.w, t.h, max_iter)
}

/// Agreement of two records on everything but the measured duration.
pub open spec fn record_core_eq(a: TaskRecord, b: TaskRecord) -> bool {
    &&& a.task_id == b.task_id
    &&& a.tile_x == b.tile_x
    &&& a.tile_y == b.tile_y
    &&& a.tile_w == b.tile_w
    &&& a.tile_h == b.tile_h
    &&& a.pixels_computed == b.pixels_computed
}

} // verus!
