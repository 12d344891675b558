//! The chunked pipeline behind the parallel scheduler: contiguous chunk
//! planning, the per-worker loop with its shared advisory cancellation flag,
//! the sort that restores deterministic order, and single-threaded emission.
//!
//! A threaded driver runs `worker_run` once per chunk on worker threads,
//! sharing one start instant and one cancellation flag, joins them, and feeds
//! the merged outcomes through `sort_outcomes` and `emit_outcomes`.
//! `run_chunked` composes the same steps on the calling thread, which keeps
//! every step of the pipeline verified.

use vstd::prelude::*;
use vstd::multiset::Multiset;
use std::sync::atomic::{AtomicBool, Ordering};
use crate::clock::{budget_exceeded, clock_now, elapsed_ms};
use crate::kernel::{lemma_pixel_count_bound, render_tile, tile_pixels, Kernel};
use crate::records::{record_core_eq, record_for, update_for, TaskRecord, TileUpdate, TileUpdateView};
use crate::sequential::run_reported;
use crate::sink::Sink;
use crate::tiles::{
    dims_in_range, lemma_ceil_div, lemma_grid_bounds, partition, tile_count, tile_model,
    tiles_model, valid_config, Tile,
};
use crate::ExecError;

verus! {

/// One worker's product for one completed tile: the durable record and the
/// pixel buffer the sink will consume.
pub struct TileOutcome {
    pub record: TaskRecord,
    pub data: Vec<u16>,
}

/// The update the sink receives for an outcome: the record's identity,
/// geometry and duration, plus the pixel buffer.
pub open spec fn update_view_of(o: TileOutcome) -> TileUpdateView {
    TileUpdateView {
        task_id: o.record.task_id,
        tile_x: o.record.tile_x,
        tile_y: o.record.tile_y,
        tile_w: o.record.tile_w,
        tile_h: o.record.tile_h,
        data: o.data@,
        duration_ms: o.record.duration_ms,
    }
}

/// What a successful computation of tile `t` under kernel `k` must yield.
pub open spec fn outcome_for<K: Kernel>(
    o: TileOutcome,
    k: K,
    t: Tile,
    width: u32,
    height: u32,
    max_iter: u16,
) -> bool {
    &&& record_for(o.record, t, width, height)
    &&& o.data@ == tile_pixels(k, width, height, t.x, t.y, t.w, t.h, max_iter)
}

/// Relies on std::sync::atomic::AtomicBool::load (relaxed ordering): reads
/// the shared advisory cancellation flag. Nothing is assumed of the value.
#[verifier::external_body]
fn cancel_seen(flag: &AtomicBool) -> bool {
    flag.load(Ordering::Relaxed)
}

/// Relies on std::sync::atomic::AtomicBool::store (relaxed ordering): raises
/// the shared advisory cancellation flag; it is never reset.
#[verifier::external_body]
fn cancel_raise(flag: &AtomicBool) {
    flag.store(true, Ordering::Relaxed)
}

/// Chunk size for splitting `count` tiles over `num_threads` workers:
/// `count / num_threads`, rounded up.
pub open spec fn chunk_size_of(count: int, num_threads: int) -> int {
    (count + num_threads - 1) / num_threads
}

fn chunk_size(len: usize, num_threads: u32) -> (cs: usize)
    requires
        len >= 1,
        num_threads >= 1,
    ensures
        cs == chunk_size_of(len as int, num_threads as int),
        1 <= cs <= len,
        cs * (num_threads as int) >= len,
{
    let nt = num_threads as usize;
    proof {
        let n = len as int;
        let d = nt as int;
        let qq = (n - 1) / d;
        let rr = (n - 1) % d;
        vstd::arithmetic::div_mod::lemma_fundamental_div_mod(n - 1, d);
        assert(0 <= rr < d) by {
            vstd::arithmetic::div_mod::lemma_mod_bound(n - 1, d);
        }
        assert(n + d - 1 == (qq + 1) * d + rr) by (nonlinear_arith)
            requires n - 1 == d * qq + rr,
        ;
        vstd::arithmetic::div_mod::lemma_fundamental_div_mod_converse_div(n + d - 1, d, qq + 1, rr);
        lemma_ceil_div(n, d);
    }
    (len - 1) / nt + 1
}

/// The half-open index range of chunk `k`: `[k * cs, min((k + 1) * cs, n))`.
pub open spec fn chunk_end(n: int, cs: int, k: int) -> int {
    if (k + 1) * cs <= n {
        (k + 1) * cs
    } else {
        n
    }
}

/// Splits the tile sequence into contiguous chunks of the ceiling chunk
/// size; every chunk is non-empty, the last may be shorter, and there are at
/// most `num_threads` of them. Chunking never reorders or drops a tile.
pub fn make_chunks(tiles: &Vec<Tile>, num_threads: u32) -> (chunks: Vec<Vec<Tile>>)
    requires
        num_threads >= 1,
    ensures
        ({
            let n = tiles@.len() as int;
            let cs = chunk_size_of(n, num_threads as int);
            &&& (n == 0 ==> chunks@.len() == 0)
            &&& (n > 0 ==> 1 <= chunks@.len() <= num_threads)
            &&& (n > 0 ==> n <= chunks@.len() * cs)
            &&& forall|k: int|
                0 <= k < chunks@.len() ==> (#[trigger] chunks@[k])@ == tiles@.subrange(
                    k * cs,
                    chunk_end(n, cs, k),
                )
            &&& forall|k: int| 0 <= k < chunks@.len() ==> #[trigger] (k * cs) < n
        }),
{
    let n = tiles.len();
    let mut chunks: Vec<Vec<Tile>> = Vec::new();
    if n == 0 {
        return chunks;
    }
    let cs = chunk_size(n, num_threads);
    let mut pos: usize = 0;
    proof {
        assert(chunks@.len() * cs == 0) by (nonlinear_arith)
            requires chunks@.len() == 0,
        ;
    }
    while pos < n
        invariant
            n == tiles@.len(),
            n >= 1,
            cs == chunk_size_of(n as int, num_threads as int),
            1 <= cs <= n,
            cs * (num_threads as int) >= n,
            0 <= pos <= n,
            pos == chunks@.len() * cs || (pos == n && chunks@.len() * cs >= n),
            chunks@.len() * cs >= pos,
            forall|k: int|
                0 <= k < chunks@.len() ==> (#[trigger] chunks@[k])@ == tiles@.subrange(
                    k * cs,
                    chunk_end(n as int, cs as int, k),
                ),
            forall|k: int| 0 <= k < chunks@.len() ==> #[trigger] (k * cs) < n,
            chunks@.len() <= num_threads,
        decreases n - pos,
    {
        let ghost kk = chunks@.len() as int;
        proof {
            assert(pos == kk * cs);
            assert(kk < num_threads) by {
                if kk >= num_threads {
                    assert(kk * cs >= (num_threads as int) * cs) by (nonlinear_arith)
                        requires kk >= num_threads as int, cs >= 1,
                    ;
                    assert((num_threads as int) * cs == cs * (num_threads as int))
                        by (nonlinear_arith);
                }
            }
            assert((kk + 1) * cs == kk * cs + cs) by (nonlinear_arith);
        }
        let end: usize = if n - pos > cs {
            pos + cs
        } else {
            n
        };
        proof {
            assert(end == chunk_end(n as int, cs as int, kk));
        }
        let mut chunk: Vec<Tile> = Vec::new();
        let mut j: usize = pos;
        while j < end
            invariant
                0 <= pos <= j <= end <= n,
                n == tiles@.len(),
                chunk@ == tiles@.subrange(pos as int, j as int),
            decreases end - j,
        {
            let t = tiles[j];
            chunk.push(t);
            proof {
                assert(tiles@.subrange(pos as int, j + 1) =~= tiles@.subrange(
                    pos as int,
                    j as int,
                ).push(tiles@[j as int]));
            }
            j = j + 1;
        }
        chunks.push(chunk);
        pos = end;
        proof {
            assert(chunks@.len() == kk + 1);
            assert(forall|k: int|
                0 <= k < kk ==> (#[trigger] chunks@[k])@ == tiles@.subrange(
                    k * (cs as int),
                    chunk_end(n as int, cs as int, k),
                ));
        }
    }
    proof {
        if chunks@.len() == 0 {
            assert(chunks@.len() * cs == 0) by (nonlinear_arith)
                requires chunks@.len() == 0,
            ;
            assert(false);
        }
    }
    chunks
}

/// One worker's walk of its chunk, in order: stop if the shared cancellation
/// flag is up; else if the budget is exhausted, raise the flag and stop; else
/// render the tile under its pre-assigned identity and keep the outcome. The
/// outcomes are a prefix of the chunk; which prefix depends on the clock and
/// on the other workers, but every kept outcome is exact.
pub fn worker_run<K: Kernel>(
    kernel: &K,
    chunk: &Vec<Tile>,
    width: u32,
    height: u32,
    max_iter: u16,
    overall_start: &std::time::Instant,
    time_limit_ms: u64,
    cancel: &AtomicBool,
) -> (out: Vec<TileOutcome>)
    requires
        dims_in_range(width, height),
    ensures
        out@.len() <= chunk@.len(),
        forall|i: int|
            0 <= i < out@.len() ==> outcome_for(
                #[trigger] out@[i],
                *kernel,
                chunk@[i],
                width,
                height,
                max_iter,
            ),
        time_limit_ms == 0 ==> out@.len() == 0,
{
    let mut out: Vec<TileOutcome> = Vec::new();
    let mut i: usize = 0;
    while i < chunk.len()
        invariant
            dims_in_range(width, height),
            0 <= i <= chunk@.len(),
            out@.len() == i,
            forall|j: int|
                0 <= j < out@.len() ==> outcome_for(
                    #[trigger] out@[j],
                    *kernel,
                    chunk@[j],
                    width,
                    height,
                    max_iter,
                ),
            time_limit_ms == 0 ==> i == 0,
        decreases chunk@.len() - i,
    {
        if cancel_seen(cancel) {
            break;
        }
        if budget_exceeded(overall_start, time_limit_ms) {
            cancel_raise(cancel);
            break;
        }
        let t = chunk[i];
        let tile_start = clock_now();
        let data = render_tile(kernel, width, height, t.x, t.y, t.w, t.h, max_iter);
        let duration_ms = elapsed_ms(&tile_start);
        proof {
            lemma_pixel_count_bound(width, height, t.x, t.y, t.w, t.h);
        }
        let pixels_computed: u32 = data.len() as u32;
        out.push(TileOutcome {
            record: TaskRecord {
                task_id: t.index,
                tile_x: t.x,
                tile_y: t.y,
                tile_w: t.w,
                tile_h: t.h,
                duration_ms,
                pixels_computed,
            },
            data,
        });
        i = i + 1;
    }
    out
}

/// Outcomes in ascending task-identity order.
pub open spec fn sorted_by_task_id(s: Seq<TileOutcome>) -> bool {
    forall|i: int, j: int|
        0 <= i < j < s.len() ==> (#[trigger] s[i]).record.task_id <= (#[trigger] s[j]).record.task_id
}

/// Sorts accumulated outcomes ascending by task identity: the step that
/// restores deterministic emission order after concurrent, out-of-order
/// completion. The result is a permutation of the input; input that is
/// already in order comes back unchanged.
pub fn sort_outcomes(outcomes: Vec<TileOutcome>) -> (sorted: Vec<TileOutcome>)
    ensures
        sorted_by_task_id(sorted@),
        sorted@.to_multiset() == outcomes@.to_multiset(),
        sorted_by_task_id(outcomes@) ==> sorted@ == outcomes@,
{
    broadcast use vstd::seq_lib::group_to_multiset_ensures, vstd::multiset::group_multiset_axioms;

    let ghost input = outcomes@;
    let mut rest = outcomes;
    let mut sorted: Vec<TileOutcome> = Vec::new();
    while rest.len() > 0
        invariant
            sorted@.len() + rest@.len() == input.len(),
            sorted@.to_multiset().add(rest@.to_multiset()) == input.to_multiset(),
            sorted_by_task_id(sorted@),
            forall|a: int, b: int|
                0 <= a < sorted@.len() && 0 <= b < rest@.len() ==> (#[trigger] sorted@[a]).record.task_id
                    <= (#[trigger] rest@[b]).record.task_id,
            sorted_by_task_id(input) ==> (sorted@ == input.subrange(0, sorted@.len() as int)
                && rest@ == input.subrange(sorted@.len() as int, input.len() as int)),
        decreases rest@.len(),
    {
        let mut m: usize = 0;
        let mut q: usize = 1;
        while q < rest.len()
            invariant
                rest@.len() >= 1,
                0 <= m < q <= rest@.len(),
                forall|b: int|
                    0 <= b < q ==> (#[trigger] rest@[b]).record.task_id
                        >= rest@[m as int].record.task_id,
                sorted_by_task_id(rest@) ==> m == 0,
            decreases rest@.len() - q,
        {
            if rest[q].record.task_id < rest[m].record.task_id {
                m = q;
            }
            q = q + 1;
        }
        let ghost rest_pre = rest@;
        let ghost sorted_pre = sorted@;
        let x = rest.remove(m);
        proof {
            rest_pre.to_multiset_ensures();
            sorted_pre.to_multiset_ensures();
            assert(0 <= m < rest_pre.len());
            assert(rest_pre[m as int] == x);
            assert(rest_pre.contains(x));
            assert(rest_pre.to_multiset().count(x) > 0);
            assert(rest@ == rest_pre.remove(m as int));
            assert(rest@.to_multiset() == rest_pre.to_multiset().remove(x));
        }
        sorted.push(x);
        proof {
            assert(sorted@ == sorted_pre.push(x));
            assert(sorted@.to_multiset() == sorted_pre.to_multiset().insert(x));
            assert(sorted@.to_multiset().add(rest@.to_multiset()) =~= sorted_pre.to_multiset().add(
                rest_pre.to_multiset(),
            ));
            if sorted_by_task_id(input) {
                assert(sorted_by_task_id(rest_pre));
                assert(m == 0);
                assert(sorted@ =~= input.subrange(0, sorted@.len() as int));
                assert(rest@ =~= input.subrange(sorted@.len() as int, input.len() as int));
            }
        }
    }
    proof {
        assert(rest@.to_multiset() =~= Multiset::<TileOutcome>::empty());
        assert(sorted@.to_multiset() =~= sorted@.to_multiset().add(rest@.to_multiset()));
        if sorted_by_task_id(input) {
            assert(sorted@ =~= input);
        }
    }
    sorted
}

/// The sink has observed, beyond its previous log `base`, exactly the
/// updates for the first `m` outcomes, in order.
pub open spec fn emitted_outcomes_prefix(
    outcomes: Seq<TileOutcome>,
    base: Seq<TileUpdateView>,
    obs: Seq<TileUpdateView>,
    m: int,
) -> bool {
    &&& obs.len() == base.len() + m
    &&& obs.subrange(0, base.len() as int) == base
    &&& forall|i: int| 0 <= i < m ==> obs[base.len() + i] == update_view_of(#[trigger] outcomes[i])
}

/// Emits the outcomes to the sink in their given order, building each update
/// on the calling thread, and returns the records with the pixel buffers
/// dropped. A sink error aborts immediately with that error; records already
/// emitted are not returned.
#[verifier::loop_isolation(false)]
pub fn emit_outcomes<S: Sink>(outcomes: Vec<TileOutcome>, sink: &mut S) -> (r: Result<
    Vec<TaskRecord>,
    ExecError,
>)
    ensures
        match r {
            Result::Ok(records) => {
                &&& records@.len() == outcomes@.len()
                &&& forall|i: int|
                    0 <= i < outcomes@.len() ==> records@[i] == (#[trigger] outcomes@[i]).record
                &&& emitted_outcomes_prefix(
                    outcomes@,
                    old(sink).observed(),
                    final(sink).observed(),
                    outcomes@.len() as int,
                )
            },
            Result::Err(e) => {
                &&& e matches ExecError::Sink(_)
                &&& ({
                    let m = final(sink).observed().len() - old(sink).observed().len();
                    0 <= m < outcomes@.len() && emitted_outcomes_prefix(
                        outcomes@,
                        old(sink).observed(),
                        final(sink).observed(),
                        m,
                    )
                })
            },
        },
{
    let ghost all = outcomes@;
    let ghost base = sink.observed();
    let mut rest = outcomes;
    let mut records: Vec<TaskRecord> = Vec::new();
    proof {
        assert(sink.observed().subrange(0, base.len() as int) =~= base);
    }
    while rest.len() > 0
        invariant
            records@.len() + rest@.len() == all.len(),
            rest@ == all.subrange(records@.len() as int, all.len() as int),
            forall|i: int| 0 <= i < records@.len() ==> records@[i] == (#[trigger] all[i]).record,
            base == old(sink).observed(),
            emitted_outcomes_prefix(all, base, sink.observed(), records@.len() as int),
        decreases rest@.len(),
    {
        let ghost k = records@.len() as int;
        let o = rest.remove(0);
        proof {
            assert(o == all[k]);
            assert(rest@ =~= all.subrange(k + 1, all.len() as int));
        }
        let record = o.record;
        let update = TileUpdate {
            task_id: record.task_id,
            tile_x: record.tile_x,
            tile_y: record.tile_y,
            tile_w: record.tile_w,
            tile_h: record.tile_h,
            data: o.data,
            duration_ms: record.duration_ms,
        };
        let ghost update_view = update@;
        let ghost pre_obs = sink.observed();
        proof {
            assert(update_view == update_view_of(all[k]));
        }
        match sink.emit(update) {
            Result::Ok(()) => {},
            Result::Err(e) => {
                proof {
                    assert(sink.observed() == pre_obs);
                    assert(0 <= k < all.len());
                    assert(emitted_outcomes_prefix(
                        all,
                        old(sink).observed(),
                        sink.observed(),
                        k,
                    ));
                }
                return Result::Err(ExecError::Sink(e));
            },
        }
        records.push(record);
        proof {
            assert(sink.observed() == pre_obs.push(update_view));
            assert(sink.observed().subrange(0, base.len() as int) =~= pre_obs.subrange(
                0,
                base.len() as int,
            ));
        }
    }
    Result::Ok(records)
}

/// The reported identities are, chunk by chunk of the `cs`-sized chunking, a
/// prefix of that chunk: over strictly ascending identities, every identity
/// not at a chunk boundary (not a multiple of `cs`) sits right after its
/// predecessor. A worker stops somewhere in its chunk, never skips within it.
pub open spec fn chunk_prefixes(records: Seq<TaskRecord>, cs: int) -> bool {
    forall|i: int|
        0 <= i < records.len() && (#[trigger] records[i]).task_id as int % cs != 0 ==> (i > 0
            && records[i - 1].task_id == records[i].task_id - 1)
}

/// Updates a run's sink accepted before an abort: beyond the previous log
/// `base`, exactly `m` updates, each exact for the tile its identity names,
/// the identities strictly ascending and within the grid.
pub open spec fn emitted_ascending<K: Kernel>(
    k: K,
    width: u32,
    height: u32,
    tile_w: u32,
    tile_h: u32,
    max_iter: u16,
    base: Seq<TileUpdateView>,
    obs: Seq<TileUpdateView>,
    m: int,
) -> bool {
    &&& obs.len() == base.len() + m
    &&& obs.subrange(0, base.len() as int) == base
    &&& forall|i: int|
        0 <= i < m ==> (#[trigger] obs[base.len() + i]).task_id < tile_count(
            width,
            height,
            tile_w,
            tile_h,
        )
    &&& forall|i: int|
        0 <= i < m ==> update_for(
            #[trigger] obs[base.len() + i],
            k,
            tile_model(width, tile_w, tile_h, obs[base.len() + i].task_id as int),
            width,
            height,
            max_iter,
        )
    &&& forall|i: int, j: int|
        0 <= i < j < m ==> (#[trigger] obs[base.len() + i]).task_id < (#[trigger] obs[base.len()
            + j]).task_id
}

/// How many tiles stand before chunk `k`: `k * cs`, capped at the count.
pub open spec fn prefix_bound(n: int, cs: int, k: int) -> int {
    if k * cs <= n {
        k * cs
    } else {
        n
    }
}

/// What the chunked pipeline reports on success: records for an
/// order-preserving subset of the tiles — strictly ascending task identities,
/// each record and its sink observation exact for the tile its identity
/// names, the observations in the same order with the same durations.
pub open spec fn chunked_reported<K: Kernel>(
    k: K,
    width: u32,
    height: u32,
    tile_w: u32,
    tile_h: u32,
    max_iter: u16,
    records: Seq<TaskRecord>,
    base: Seq<TileUpdateView>,
    obs: Seq<TileUpdateView>,
) -> bool {
    let n = records.len() as int;
    &&& n <= tile_count(width, height, tile_w, tile_h)
    &&& forall|i: int, j: int|
        0 <= i < j < n ==> (#[trigger] records[i]).task_id < (#[trigger] records[j]).task_id
    &&& forall|i: int|
        0 <= i < n ==> (#[trigger] records[i]).task_id < tile_count(width, height, tile_w, tile_h)
    &&& forall|i: int|
        0 <= i < n ==> record_for(
            #[trigger] records[i],
            tile_model(width, tile_w, tile_h, records[i].task_id as int),
            width,
            height,
        )
    &&& obs.len() == base.len() + n
    &&& obs.subrange(0, base.len() as int) == base
    &&& forall|i: int|
        0 <= i < n ==> update_for(
            #[trigger] obs[base.len() + i],
            k,
            tile_model(width, tile_w, tile_h, records[i].task_id as int),
            width,
            height,
            max_iter,
        )
    &&& forall|i: int|
        0 <= i < n ==> (#[trigger] obs[base.len() + i]).duration_ms == records[i].duration_ms
}

/// The parallel scheduler's pipeline, composed on the calling thread:
/// partition with global indices, split into contiguous chunks, run the
/// worker loop for each chunk in turn — all sharing one budget start and one
/// cancellation flag — then sort the accumulated outcomes by task identity
/// and emit them in order, single-threaded. A threaded driver runs the same
/// `worker_run` on one thread per chunk and feeds the joined outputs through
/// the same `sort_outcomes` and `emit_outcomes`.
#[verifier::loop_isolation(false)]
pub fn run_chunked<K: Kernel, S: Sink>(
    width: u32,
    height: u32,
    tile_w: u32,
    tile_h: u32,
    max_iter: u16,
    time_limit_ms: u64,
    num_threads: u32,
    kernel: &K,
    sink: &mut S,
) -> (r: Result<Vec<TaskRecord>, ExecError>)
    requires
        dims_in_range(width, height),
    ensures
        (!valid_config(width, height, tile_w, tile_h) || num_threads == 0) ==> (r matches Err(
            ExecError::Config,
        ) && final(sink).observed() == old(sink).observed()),
        (valid_config(width, height, tile_w, tile_h) && num_threads >= 1 && time_limit_ms == 0)
            ==> r is Ok,
        (valid_config(width, height, tile_w, tile_h) && num_threads >= 1) ==> match r {
            Result::Ok(records) => {
                &&& chunked_reported(
                    *kernel,
                    width,
                    height,
                    tile_w,
                    tile_h,
                    max_iter,
                    records@,
                    old(sink).observed(),
                    final(sink).observed(),
                )
                &&& chunk_prefixes(
                    records@,
                    chunk_size_of(
                        tile_count(width, height, tile_w, tile_h),
                        num_threads as int,
                    ),
                )
                &&& (time_limit_ms == 0 ==> records@.len() == 0)
                &&& (records@.len() == tile_count(width, height, tile_w, tile_h) ==> run_reported(
                    *kernel,
                    width,
                    height,
                    tile_w,
                    tile_h,
                    max_iter,
                    records@,
                    old(sink).observed(),
                    final(sink).observed(),
                ))
            },
            Result::Err(e) => {
                &&& e matches ExecError::Sink(_)
                &&& ({
                    let m = final(sink).observed().len() - old(sink).observed().len();
                    0 <= m < tile_count(width, height, tile_w, tile_h) && emitted_ascending(
                        *kernel,
                        width,
                        height,
                        tile_w,
                        tile_h,
                        max_iter,
                        old(sink).observed(),
                        final(sink).observed(),
                        m,
                    )
                })
            },
        },
{
    if width == 0 || height == 0 || tile_w == 0 || tile_h == 0 || num_threads == 0 {
        return Result::Err(ExecError::Config);
    }
    proof {
        lemma_grid_bounds(width, height, tile_w, tile_h);
    }
    let ghost base = sink.observed();
    let tiles = partition(width, height, tile_w, tile_h);
    let n = tiles.len();
    let ghost count = tile_count(width, height, tile_w, tile_h);
    let chunks = make_chunks(&tiles, num_threads);
    let ghost cs = chunk_size_of(n as int, num_threads as int);
    let overall_start = clock_now();
    let cancel = AtomicBool::new(false);
    let mut all: Vec<TileOutcome> = Vec::new();
    let mut k: usize = 0;
    proof {
        assert(0 * cs == 0) by (nonlinear_arith);
        lemma_ceil_div(n as int, num_threads as int);
    }
    while k < chunks.len()
        invariant
            0 <= k <= chunks@.len(),
            all@.len() <= prefix_bound(n as int, cs, k as int),
            forall|i: int, j: int|
                0 <= i < j < all@.len() ==> (#[trigger] all@[i]).record.task_id
                    < (#[trigger] all@[j]).record.task_id,
            forall|i: int|
                0 <= i < all@.len() ==> (#[trigger] all@[i]).record.task_id < prefix_bound(
                    n as int,
                    cs,
                    k as int,
                ),
            forall|i: int|
                0 <= i < all@.len() ==> outcome_for(
                    #[trigger] all@[i],
                    *kernel,
                    tile_model(width, tile_w, tile_h, all@[i].record.task_id as int),
                    width,
                    height,
                    max_iter,
                ),
            all@.len() == prefix_bound(n as int, cs, k as int) ==> (forall|i: int|
                0 <= i < all@.len() ==> (#[trigger] all@[i]).record.task_id == i),
            forall|i: int|
                0 <= i < all@.len() && (#[trigger] all@[i]).record.task_id as int % cs != 0 ==> (i
                    > 0 && all@[i - 1].record.task_id == all@[i].record.task_id - 1),
            time_limit_ms == 0 ==> all@.len() == 0,
        decreases chunks@.len() - k,
    {
        let chunk = &chunks[k];
        let ghost pre = all@;
        let ghost kq = k as int;
        let ghost lo = (k as int) * cs;
        proof {
            assert(chunk@ == tiles@.subrange(lo, chunk_end(n as int, cs, k as int)));
            assert(lo < n);
            assert(prefix_bound(n as int, cs, k as int) == lo);
            assert((k as int + 1) * cs == lo + cs) by (nonlinear_arith)
                requires lo == (k as int) * cs,
            ;
            assert(chunk_end(n as int, cs, k as int) == prefix_bound(n as int, cs, k as int + 1));
        }
        let ghost hi = chunk_end(n as int, cs, k as int);
        let mut out = worker_run(
            kernel,
            chunk,
            width,
            height,
            max_iter,
            &overall_start,
            time_limit_ms,
            &cancel,
        );
        let ghost outv = out@;
        let ghost m = outv.len() as int;
        proof {
            assert forall|j: int| 0 <= j < m implies ((#[trigger] outv[j]).record.task_id == lo + j
                && outcome_for(
                outv[j],
                *kernel,
                tile_model(width, tile_w, tile_h, lo + j),
                width,
                height,
                max_iter,
            )) by {
                assert(outcome_for(outv[j], *kernel, chunk@[j], width, height, max_iter));
                assert(chunk@[j] == tiles@[lo + j]);
                assert(tiles@[lo + j] == tile_model(width, tile_w, tile_h, lo + j));
                assert(0 <= lo + j < count <= u32::MAX);
            }
        }
        all.append(&mut out);
        k = k + 1;
        proof {
            assert(all@ == pre + outv);
            assert(all@.len() == pre.len() + m);
            assert(m <= hi - lo);
            assert(hi <= lo + cs);
            assert(forall|i: int| 0 <= i < pre.len() ==> all@[i] == pre[i]);
            assert(forall|j: int| 0 <= j < m ==> all@[pre.len() + j] == outv[j]);
            assert forall|i: int|
                0 <= i < all@.len() && (#[trigger] all@[i]).record.task_id as int % cs
                    != 0 implies (i > 0 && all@[i - 1].record.task_id == all@[i].record.task_id
                - 1) by {
                if i >= pre.len() {
                    let j = i - pre.len();
                    assert(all@[i] == outv[j]);
                    assert(outv[j].record.task_id == lo + j);
                    assert(lo + j == kq * cs + j);
                    vstd::arithmetic::div_mod::lemma_fundamental_div_mod_converse_mod(
                        lo + j,
                        cs,
                        kq,
                        j,
                    );
                    assert(j != 0);
                    assert(all@[i - 1] == outv[j - 1]);
                    assert(outv[j - 1].record.task_id == lo + j - 1);
                }
            }
            if all@.len() == prefix_bound(n as int, cs, k as int) {
                assert(pre.len() == lo && m == hi - lo);
                assert forall|i: int| 0 <= i < all@.len() implies (#[trigger] all@[i]).record.task_id
                    == i by {
                    if i < lo {
                        assert(all@[i] == pre[i]);
                    } else {
                        assert(all@[i] == outv[i - lo]);
                    }
                }
            }
        }
    }
    let ghost all_view = all@;
    proof {
        assert(n as int <= chunks@.len() * cs);
        assert(prefix_bound(n as int, cs, chunks@.len() as int) == n);
        assert(all_view.len() <= n);
        assert(forall|i: int, j: int|
            0 <= i < j < all_view.len() ==> (#[trigger] all_view[i]).record.task_id
                < (#[trigger] all_view[j]).record.task_id);
        assert(forall|i: int|
            0 <= i < all_view.len() ==> (#[trigger] all_view[i]).record.task_id < n);
        assert(forall|i: int|
            0 <= i < all_view.len() ==> outcome_for(
                #[trigger] all_view[i],
                *kernel,
                tile_model(width, tile_w, tile_h, all_view[i].record.task_id as int),
                width,
                height,
                max_iter,
            ));
        assert(all_view.len() == n ==> forall|i: int|
            0 <= i < all_view.len() ==> (#[trigger] all_view[i]).record.task_id == i);
        assert(forall|i: int|
            0 <= i < all_view.len() && (#[trigger] all_view[i]).record.task_id as int % cs != 0
                ==> (i > 0 && all_view[i - 1].record.task_id == all_view[i].record.task_id - 1));
        assert(time_limit_ms == 0 ==> all_view.len() == 0);
        assert(sorted_by_task_id(all_view));
    }
    let sorted = sort_outcomes(all);
    let ghost sorted_view = sorted@;
    proof {
        assert(sorted_view == all_view);
    }
    let result = emit_outcomes(sorted, sink);
    match result {
        Result::Ok(records) => {
            proof {
                assert(records@.len() == all_view.len());
                assert forall|i: int| 0 <= i < records@.len() implies #[trigger] records@[i]
                    == all_view[i].record by {
                    assert(records@[i] == sorted_view[i].record);
                }
                assert forall|i: int, j: int| 0 <= i < j < records@.len() implies (
                #[trigger] records@[i]).task_id < (#[trigger] records@[j]).task_id by {
                    assert(records@[i] == all_view[i].record);
                    assert(records@[j] == all_view[j].record);
                }
                assert forall|i: int| 0 <= i < records@.len() implies ((
                #[trigger] records@[i]).task_id < count && record_for(
                    records@[i],
                    tile_model(width, tile_w, tile_h, records@[i].task_id as int),
                    width,
                    height,
                )) by {
                    assert(records@[i] == all_view[i].record);
                    assert(outcome_for(
                        all_view[i],
                        *kernel,
                        tile_model(width, tile_w, tile_h, all_view[i].record.task_id as int),
                        width,
                        height,
                        max_iter,
                    ));
                }
                assert forall|i: int| 0 <= i < records@.len() implies (update_for(
                    #[trigger] sink.observed()[base.len() + i],
                    *kernel,
                    tile_model(width, tile_w, tile_h, records@[i].task_id as int),
                    width,
                    height,
                    max_iter,
                ) && sink.observed()[base.len() + i].duration_ms == records@[i].duration_ms) by {
                    assert(sink.observed()[base.len() + i] == update_view_of(sorted_view[i]));
                    assert(records@[i] == all_view[i].record);
                    assert(outcome_for(
                        all_view[i],
                        *kernel,
                        tile_model(width, tile_w, tile_h, all_view[i].record.task_id as int),
                        width,
                        height,
                        max_iter,
                    ));
                }
                assert forall|i: int|
                    0 <= i < records@.len() && (#[trigger] records@[i]).task_id as int % cs
                        != 0 implies (i > 0 && records@[i - 1].task_id == records@[i].task_id
                    - 1) by {
                    assert(records@[i] == all_view[i].record);
                    assert(i > 0 && all_view[i - 1].record.task_id == all_view[i].record.task_id
                        - 1);
                    assert(records@[i - 1] == all_view[i - 1].record);
                }
                assert(chunk_prefixes(records@, cs));
                if records@.len() == count {
                    assert(all_view.len() == n);
                    assert forall|i: int| 0 <= i < records@.len() implies (
                    #[trigger] records@[i]).task_id == i by {
                        assert(records@[i] == all_view[i].record);
                    }
                }
            }
            Result::Ok(records)
        },
        Result::Err(e) => {
            proof {
                if time_limit_ms == 0 {
                    assert(sorted_view.len() == 0);
                    assert(false);
                }
                let m = sink.observed().len() - base.len();
                assert(0 <= m < sorted_view.len() <= count);
                assert forall|i: int| 0 <= i < m implies ((#[trigger] sink.observed()[base.len()
                    + i]).task_id < count && update_for(
                    sink.observed()[base.len() + i],
                    *kernel,
                    tile_model(
                        width,
                        tile_w,
                        tile_h,
                        sink.observed()[base.len() + i].task_id as int,
                    ),
                    width,
                    height,
                    max_iter,
                )) by {
                    assert(sink.observed()[base.len() + i] == update_view_of(sorted_view[i]));
                    assert(sorted_view[i] == all_view[i]);
                    assert(outcome_for(
                        all_view[i],
                        *kernel,
                        tile_model(width, tile_w, tile_h, all_view[i].record.task_id as int),
                        width,
                        height,
                        max_iter,
                    ));
                }
                assert forall|i: int, j: int| 0 <= i < j < m implies (
                #[trigger] sink.observed()[base.len() + i]).task_id < (
                #[trigger] sink.observed()[base.len() + j]).task_id by {
                    assert(sink.observed()[base.len() + i] == update_view_of(sorted_view[i]));
                    assert(sink.observed()[base.len() + j] == update_view_of(sorted_view[j]));
                    assert(all_view[i].record.task_id < all_view[j].record.task_id);
                }
                assert(emitted_ascending(
                    *kernel,
                    width,
                    height,
                    tile_w,
                    tile_h,
                    max_iter,
                    base,
                    sink.observed(),
                    m,
                ));
            }
            Result::Err(e)
        },
    }
}

/// With the same grid, kernel and iteration cap, and a budget generous
/// enough that neither run was cut short, the sequential walk and the
/// chunked pipeline report the same records — same task identity, geometry
/// and pixel count per position — and their sinks observe identical pixel
/// buffers per tile; only the measured durations may differ.
pub proof fn lemma_full_runs_agree<K: Kernel>(
    k: K,
    width: u32,
    height: u32,
    tile_w: u32,
    tile_h: u32,
    max_iter: u16,
    seq_records: Seq<TaskRecord>,
    seq_base: Seq<TileUpdateView>,
    seq_obs: Seq<TileUpdateView>,
    par_records: Seq<TaskRecord>,
    par_base: Seq<TileUpdateView>,
    par_obs: Seq<TileUpdateView>,
)
    requires
        run_reported(k, width, height, tile_w, tile_h, max_iter, seq_records, seq_base, seq_obs),
        run_reported(k, width, height, tile_w, tile_h, max_iter, par_records, par_base, par_obs),
        seq_records.len() == tile_count(width, height, tile_w, tile_h),
        par_records.len() == tile_count(width, height, tile_w, tile_h),
    ensures
        forall|i: int|
            0 <= i < seq_records.len() ==> record_core_eq(
                #[trigger] seq_records[i],
                par_records[i],
            ),
        forall|i: int|
            0 <= i < seq_records.len() ==> (#[trigger] seq_obs[seq_base.len() + i]).data
                == par_obs[par_base.len() + i].data,
{
    assert forall|i: int| 0 <= i < seq_records.len() implies record_core_eq(
        #[trigger] seq_records[i],
        par_records[i],
    ) by {
        let t = tile_model(width, tile_w, tile_h, i);
        assert(record_for(seq_records[i], t, width, height));
        assert(record_for(par_records[i], t, width, height));
    }
    assert forall|i: int| 0 <= i < seq_records.len() implies (#[trigger] seq_obs[seq_base.len()
        + i]).data == par_obs[par_base.len() + i].data by {
        let t = tile_model(width, tile_w, tile_h, i);
        assert(update_for(seq_obs[seq_base.len() + i], k, t, width, height, max_iter));
        assert(update_for(par_obs[par_base.len() + i], k, t, width, height, max_iter));
    }
}

} // verus!

