use std::sync::atomic::{AtomicBool, Ordering};
use std::time::Instant;

use rustism::kernel::DemoKernel;
use rustism::parallel::{run_chunked, worker_run};
use rustism::records::TaskRecord;
use rustism::sequential::run_sequential;
use rustism::sink::CollectingSink;
use rustism::tiles::partition;
use rustism::ExecError;

const GENEROUS_MS: u64 = 3_600_000;

fn core_of(r: &TaskRecord) -> (u32, u32, u32, u32, u32, u32) {
    (r.task_id, r.tile_x, r.tile_y, r.tile_w, r.tile_h, r.pixels_computed)
}

#[test]
fn sequential_four_square() {
    let mut sink = CollectingSink::new();
    let records = run_sequential(4, 4, 2, 2, 10, GENEROUS_MS, &DemoKernel, &mut sink).unwrap();
    assert_eq!(records.len(), 4);
    let expect = [(0u32, 0u32, 0u32), (1, 2, 0), (2, 0, 2), (3, 2, 2)];
    for i in 0usize..4 {
        assert_eq!(records[i].task_id, expect[i].0);
        assert_eq!(records[i].tile_x, expect[i].1);
        assert_eq!(records[i].tile_y, expect[i].2);
        assert_eq!(records[i].tile_w, 2);
        assert_eq!(records[i].tile_h, 2);
        assert_eq!(records[i].pixels_computed, 4);
    }
    assert_eq!(sink.seen.len(), 4);
    for i in 0usize..4 {
        assert_eq!(sink.seen[i].task_id, i as u32);
        assert_eq!(sink.seen[i].data.len(), 4);
    }
    assert_eq!(sink.seen[1].data, vec![2, 3, 3, 4]);
    assert_eq!(sink.seen[3].data, vec![4, 5, 5, 6]);
}

#[test]
fn sequential_clipped_grid() {
    let mut sink = CollectingSink::new();
    let records = run_sequential(5, 3, 2, 2, 10, GENEROUS_MS, &DemoKernel, &mut sink).unwrap();
    assert_eq!(records.len(), 6);
    let pixels = [4u32, 4, 2, 2, 2, 1];
    for i in 0usize..6 {
        assert_eq!(records[i].task_id, i as u32);
        assert_eq!(records[i].pixels_computed, pixels[i]);
        assert_eq!(sink.seen[i].data.len(), pixels[i] as usize);
    }
    assert_eq!(records[2].tile_x, 4);
    assert_eq!(records[2].tile_y, 0);
    assert_eq!(records[5].tile_x, 4);
    assert_eq!(records[5].tile_y, 2);
    assert_eq!(sink.seen[5].data, vec![6]);
}

#[test]
fn sequential_zero_budget() {
    let mut sink = CollectingSink::new();
    let records = run_sequential(4, 4, 2, 2, 10, 0, &DemoKernel, &mut sink).unwrap();
    assert_eq!(records.len(), 0);
    assert_eq!(sink.seen.len(), 0);
}

#[test]
fn chunked_zero_budget() {
    let mut sink = CollectingSink::new();
    let records = run_chunked(4, 4, 2, 2, 10, 0, 3, &DemoKernel, &mut sink).unwrap();
    assert_eq!(records.len(), 0);
    assert_eq!(sink.seen.len(), 0);
}

#[test]
fn sequential_rejects_zero_dimensions() {
    let mut sink = CollectingSink::new();
    assert!(matches!(
        run_sequential(0, 4, 2, 2, 10, GENEROUS_MS, &DemoKernel, &mut sink),
        Err(ExecError::Config)
    ));
    assert!(matches!(
        run_sequential(4, 4, 2, 0, 10, GENEROUS_MS, &DemoKernel, &mut sink),
        Err(ExecError::Config)
    ));
    assert_eq!(sink.seen.len(), 0);
}

#[test]
fn chunked_rejects_zero_workers() {
    let mut sink = CollectingSink::new();
    assert!(matches!(
        run_chunked(4, 4, 2, 2, 10, GENEROUS_MS, 0, &DemoKernel, &mut sink),
        Err(ExecError::Config)
    ));
    assert!(matches!(
        run_chunked(4, 0, 2, 2, 10, GENEROUS_MS, 2, &DemoKernel, &mut sink),
        Err(ExecError::Config)
    ));
    assert_eq!(sink.seen.len(), 0);
}

#[test]
fn sequential_sink_failure_aborts() {
    let mut sink = CollectingSink::failing_from(2);
    let r = run_sequential(4, 4, 2, 2, 10, GENEROUS_MS, &DemoKernel, &mut sink);
    assert!(matches!(r, Err(ExecError::Sink(_))));
    assert_eq!(sink.seen.len(), 2);
    assert_eq!(sink.seen[0].task_id, 0);
    assert_eq!(sink.seen[1].task_id, 1);
}

#[test]
fn chunked_sink_failure_aborts() {
    let mut sink = CollectingSink::failing_from(3);
    let r = run_chunked(4, 4, 2, 2, 10, GENEROUS_MS, 2, &DemoKernel, &mut sink);
    assert!(matches!(r, Err(ExecError::Sink(_))));
    assert_eq!(sink.seen.len(), 3);
}

#[test]
fn chunked_matches_sequential() {
    let mut seq_sink = CollectingSink::new();
    let seq_records =
        run_sequential(5, 3, 2, 2, 7, GENEROUS_MS, &DemoKernel, &mut seq_sink).unwrap();
    for threads in 1u32..5 {
        let mut par_sink = CollectingSink::new();
        let par_records =
            run_chunked(5, 3, 2, 2, 7, GENEROUS_MS, threads, &DemoKernel, &mut par_sink).unwrap();
        assert_eq!(par_records.len(), seq_records.len());
        for i in 0..seq_records.len() {
            assert_eq!(core_of(&par_records[i]), core_of(&seq_records[i]));
            assert_eq!(par_sink.seen[i].task_id, seq_sink.seen[i].task_id);
            assert_eq!(par_sink.seen[i].data, seq_sink.seen[i].data);
        }
    }
}

#[test]
fn chunked_matches_sequential_uneven_chunks() {
    let mut seq_sink = CollectingSink::new();
    let seq_records =
        run_sequential(7, 4, 2, 3, 12, GENEROUS_MS, &DemoKernel, &mut seq_sink).unwrap();
    assert_eq!(seq_records.len(), 8);
    let mut par_sink = CollectingSink::new();
    let par_records =
        run_chunked(7, 4, 2, 3, 12, GENEROUS_MS, 3, &DemoKernel, &mut par_sink).unwrap();
    assert_eq!(par_records.len(), 8);
    for i in 0..8usize {
        assert_eq!(core_of(&par_records[i]), core_of(&seq_records[i]));
        assert_eq!(par_sink.seen[i].data, seq_sink.seen[i].data);
    }
}

#[test]
fn worker_keeps_assigned_identities() {
    let tiles = partition(5, 3, 2, 2);
    let chunk: Vec<_> = tiles[2..5].to_vec();
    let start = Instant::now();
    let cancel = AtomicBool::new(false);
    let out = worker_run(&DemoKernel, &chunk, 5, 3, 10, &start, GENEROUS_MS, &cancel);
    assert_eq!(out.len(), 3);
    assert_eq!(out[0].record.task_id, 2);
    assert_eq!(out[1].record.task_id, 3);
    assert_eq!(out[2].record.task_id, 4);
    assert!(!cancel.load(Ordering::Relaxed));
}

#[test]
fn worker_stops_on_exhausted_budget() {
    let tiles = partition(4, 4, 2, 2);
    let start = Instant::now();
    let cancel = AtomicBool::new(false);
    let out = worker_run(&DemoKernel, &tiles, 4, 4, 10, &start, 0, &cancel);
    assert_eq!(out.len(), 0);
    assert!(cancel.load(Ordering::Relaxed));
}

#[test]
fn worker_stops_on_raised_flag() {
    let tiles = partition(4, 4, 2, 2);
    let start = Instant::now();
    let cancel = AtomicBool::new(true);
    let out = worker_run(&DemoKernel, &tiles, 4, 4, 10, &start, GENEROUS_MS, &cancel);
    assert_eq!(out.len(), 0);
}
