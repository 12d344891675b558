//! The baseline executor: a single-threaded walk of the tile sequence with
//! budget checks and immediate in-order emission.

use vstd::prelude::*;
use crate::clock::{budget_exceeded, clock_now, elapsed_ms};
use crate::kernel::{lemma_pixel_count_bound, render_tile, Kernel};
use crate::records::{record_for, update_for, TaskRecord, TileUpdate, TileUpdateView};
use crate::sink::Sink;
use crate::tiles::{
    dims_in_range, partition, tile_count, tile_model, tiles_model, valid_config,
};
use crate::ExecError;

verus! {

/// The sink has observed, beyond its previous log `base`, exactly the updates
/// for the first `m` tiles of the grid, in raster order.
pub open spec fn emitted_prefix<K: Kernel>(
    k: K,
    width: u32,
    height: u32,
    tile_w: u32,
    tile_h: u32,
    max_iter: u16,
    base: Seq<TileUpdateView>,
    obs: Seq<TileUpdateView>,
    m: int,
) -> bool {
    &&& obs.len() == base.len() + m
    &&& obs.subrange(0, base.len() as int) == base
    &&& forall|i: int|
        0 <= i < m ==> update_for(
            #[trigger] obs[base.len() + i],
            k,
            tile_model(width, tile_w, tile_h, i),
            width,
            height,
            max_iter,
        )
}

/// What a completed run reports for its first `records.len()` tiles: a record
/// per tile in raster order, and a matching sink observation per record, each
/// carrying the same measured duration as its record.
pub open spec fn run_reported<K: Kernel>(
    k: K,
    width: u32,
    height: u32,
    tile_w: u32,
    tile_h: u32,
    max_iter: u16,
    records: Seq<TaskRecord>,
    base: Seq<TileUpdateView>,
    obs: Seq<TileUpdateView>,
) -> bool {
    let n = records.len() as int;
    &&& emitted_prefix(k, width, height, tile_w, tile_h, max_iter, base, obs, n)
    &&& forall|i: int|
        0 <= i < n ==> record_for(
            #[trigger] records[i],
            tile_model(width, tile_w, tile_h, i),
            width,
            height,
        )
    &&& forall|i: int| 0 <= i < n ==> (#[trigger] records[i]).duration_ms == obs[base.len() + i].duration_ms
}

/// Walks the full tile sequence in raster order under the advisory budget:
/// before starting a tile, and again after finishing one, a budget check may
/// stop the run. Each tile not skipped is rendered, emitted to the sink, and
/// recorded. Budget exhaustion is not an error: the records of the completed
/// prefix are returned. A sink error aborts the whole call with that error;
/// no records are returned.
pub fn run_sequential<K: Kernel, S: Sink>(
    width: u32,
    height: u32,
    tile_w: u32,
    tile_h: u32,
    max_iter: u16,
    time_limit_ms: u64,
    kernel: &K,
    sink: &mut S,
) -> (r: Result<Vec<TaskRecord>, ExecError>)
    requires
        dims_in_range(width, height),
    ensures
        !valid_config(width, height, tile_w, tile_h) ==> (r matches Err(ExecError::Config)
            && final(sink).observed() == old(sink).observed()),
        (valid_config(width, height, tile_w, tile_h) && time_limit_ms == 0) ==> r is Ok,
        valid_config(width, height, tile_w, tile_h) ==> match r {
            Result::Ok(records) => {
                &&& records@.len() <= tile_count(width, height, tile_w, tile_h)
                &&& run_reported(
                    *kernel,
                    width,
                    height,
                    tile_w,
                    tile_h,
                    max_iter,
                    records@,
                    old(sink).observed(),
                    final(sink).observed(),
                )
                &&& (time_limit_ms == 0 ==> records@.len() == 0)
            },
            Result::Err(e) => {
                &&& e matches ExecError::Sink(_)
                &&& exists|m: int|
                    0 <= m < tile_count(width, height, tile_w, tile_h) && emitted_prefix(
                        *kernel,
                        width,
                        height,
                        tile_w,
                        tile_h,
                        max_iter,
                        old(sink).observed(),
                        final(sink).observed(),
                        m,
                    )
            },
        },
{
    if width == 0 || height == 0 || tile_w == 0 || tile_h == 0 {
        return Err(ExecError::Config);
    }
    let ghost base = sink.observed();
    let ghost count = tile_count(width, height, tile_w, tile_h);
    let tiles = partition(width, height, tile_w, tile_h);
    let overall_start = clock_now();
    let mut records: Vec<TaskRecord> = Vec::new();
    let mut i: usize = 0;
    proof {
        assert(sink.observed().subrange(0, base.len() as int) =~= base);
    }
    while i < tiles.len()
        invariant
            dims_in_range(width, height),
            valid_config(width, height, tile_w, tile_h),
            tiles@ == tiles_model(width, height, tile_w, tile_h),
            count == tile_count(width, height, tile_w, tile_h),
            base == old(sink).observed(),
            0 <= i <= tiles@.len(),
            records@.len() == i,
            run_reported(
                *kernel,
                width,
                height,
                tile_w,
                tile_h,
                max_iter,
                records@,
                base,
                sink.observed(),
            ),
            time_limit_ms == 0 ==> i == 0,
        decreases tiles@.len() - i,
    {
        if budget_exceeded(&overall_start, time_limit_ms) {
            break;
        }
        let t = tiles[i];
        let tile_start = clock_now();
        let data = render_tile(kernel, width, height, t.x, t.y, t.w, t.h, max_iter);
        let duration_ms = elapsed_ms(&tile_start);
        proof {
            lemma_pixel_count_bound(width, height, t.x, t.y, t.w, t.h);
        }
        let pixels_computed: u32 = data.len() as u32;
        let ghost pre_obs = sink.observed();
        let update = TileUpdate {
            task_id: t.index,
            tile_x: t.x,
            tile_y: t.y,
            tile_w: t.w,
            tile_h: t.h,
            data,
            duration_ms,
        };
        let ghost update_view = update@;
        match sink.emit(update) {
            Result::Ok(()) => {},
            Result::Err(e) => {
                proof {
                    assert(sink.observed() == pre_obs);
                    assert(emitted_prefix(
                        *kernel,
                        width,
                        height,
                        tile_w,
                        tile_h,
                        max_iter,
                        base,
                        sink.observed(),
                        i as int,
                    ));
                }
                return Err(ExecError::Sink(e));
            },
        }
        proof {
            assert(sink.observed() == pre_obs.push(update_view));
            assert(sink.observed().subrange(0, base.len() as int)
                =~= pre_obs.subrange(0, base.len() as int));
            assert(update_for(
                update_view,
                *kernel,
                tile_model(width, tile_w, tile_h, i as int),
                width,
                height,
                max_iter,
            ));
        }
        records.push(TaskRecord {
            task_id: t.index,
            tile_x: t.x,
            tile_y: t.y,
            tile_w: t.w,
            tile_h: t.h,
            duration_ms,
            pixels_computed,
        });
        i = i + 1;
        if budget_exceeded(&overall_start, time_limit_ms) {
            break;
        }
    }
    Ok(records)
}

} // verus!
