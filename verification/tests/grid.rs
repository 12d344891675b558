use rustism::kernel::{render_tile, DemoKernel};
use rustism::parallel::{emit_outcomes, make_chunks, sort_outcomes, TileOutcome};
use rustism::records::TaskRecord;
use rustism::sink::CollectingSink;
use rustism::tiles::partition;
use rustism::ExecError;

fn outcome_with_id(task_id: u32) -> TileOutcome {
    TileOutcome {
        record: TaskRecord {
            task_id,
            tile_x: 0,
            tile_y: 0,
            tile_w: 1,
            tile_h: 1,
            duration_ms: 0,
            pixels_computed: 1,
        },
        data: vec![task_id as u16],
    }
}

#[test]
fn partition_four_square() {
    let tiles = partition(4, 4, 2, 2);
    assert_eq!(tiles.len(), 4);
    let expect = [(0u32, 0u32, 0u32), (1, 2, 0), (2, 0, 2), (3, 2, 2)];
    for i in 0usize..4 {
        assert_eq!(tiles[i].index, expect[i].0);
        assert_eq!(tiles[i].x, expect[i].1);
        assert_eq!(tiles[i].y, expect[i].2);
        assert_eq!(tiles[i].w, 2);
        assert_eq!(tiles[i].h, 2);
    }
}

#[test]
fn partition_five_by_three() {
    let tiles = partition(5, 3, 2, 2);
    assert_eq!(tiles.len(), 6);
    let expect = [
        (0u32, 0u32, 0u32),
        (1, 2, 0),
        (2, 4, 0),
        (3, 0, 2),
        (4, 2, 2),
        (5, 4, 2),
    ];
    for i in 0usize..6 {
        assert_eq!(tiles[i].index, expect[i].0);
        assert_eq!(tiles[i].x, expect[i].1);
        assert_eq!(tiles[i].y, expect[i].2);
        assert_eq!(tiles[i].w, 2);
        assert_eq!(tiles[i].h, 2);
    }
}

#[test]
fn partition_single_tile() {
    let tiles = partition(7, 5, 10, 10);
    assert_eq!(tiles.len(), 1);
    assert_eq!(tiles[0].index, 0);
    assert_eq!(tiles[0].x, 0);
    assert_eq!(tiles[0].y, 0);
    assert_eq!(tiles[0].w, 10);
    assert_eq!(tiles[0].h, 10);
}

#[test]
fn render_tile_interior_values() {
    let out = render_tile(&DemoKernel, 4, 4, 2, 0, 2, 2, 10);
    assert_eq!(out, vec![2, 3, 3, 4]);
}

#[test]
fn render_tile_clips_right_edge() {
    let out = render_tile(&DemoKernel, 5, 3, 4, 0, 2, 2, 10);
    assert_eq!(out, vec![4, 5]);
}

#[test]
fn render_tile_clips_corner() {
    let out = render_tile(&DemoKernel, 5, 3, 4, 2, 2, 2, 10);
    assert_eq!(out, vec![6]);
}

#[test]
fn render_tile_outside_image_is_empty() {
    let out = render_tile(&DemoKernel, 5, 3, 6, 4, 2, 2, 10);
    assert_eq!(out.len(), 0);
}

#[test]
fn chunks_cover_tiles_in_order() {
    let tiles = partition(5, 3, 2, 2);
    let chunks = make_chunks(&tiles, 4);
    assert_eq!(chunks.len(), 3);
    assert_eq!(chunks[0].len(), 2);
    assert_eq!(chunks[1].len(), 2);
    assert_eq!(chunks[2].len(), 2);
    assert_eq!(chunks[0][0].index, 0);
    assert_eq!(chunks[1][0].index, 2);
    assert_eq!(chunks[2][1].index, 5);
}

#[test]
fn chunks_single_worker() {
    let tiles = partition(5, 3, 2, 2);
    let chunks = make_chunks(&tiles, 1);
    assert_eq!(chunks.len(), 1);
    assert_eq!(chunks[0].len(), 6);
}

#[test]
fn chunks_more_workers_than_tiles() {
    let tiles = partition(4, 4, 2, 2);
    let chunks = make_chunks(&tiles, 9);
    assert_eq!(chunks.len(), 4);
    for k in 0usize..4 {
        assert_eq!(chunks[k].len(), 1);
        assert_eq!(chunks[k][0].index, k as u32);
    }
}

#[test]
fn sort_restores_task_order() {
    let scrambled = vec![
        outcome_with_id(3),
        outcome_with_id(1),
        outcome_with_id(2),
        outcome_with_id(0),
    ];
    let sorted = sort_outcomes(scrambled);
    assert_eq!(sorted.len(), 4);
    for i in 0usize..4 {
        assert_eq!(sorted[i].record.task_id, i as u32);
        assert_eq!(sorted[i].data, vec![i as u16]);
    }
}

#[test]
fn sort_keeps_sorted_input() {
    let in_order = vec![outcome_with_id(0), outcome_with_id(1), outcome_with_id(5)];
    let sorted = sort_outcomes(in_order);
    let ids: Vec<u32> = sorted.iter().map(|o| o.record.task_id).collect();
    assert_eq!(ids, vec![0, 1, 5]);
}

#[test]
fn emit_forwards_in_order() {
    let outcomes = vec![outcome_with_id(0), outcome_with_id(1), outcome_with_id(2)];
    let mut sink = CollectingSink::new();
    let records = emit_outcomes(outcomes, &mut sink).unwrap();
    assert_eq!(records.len(), 3);
    assert_eq!(sink.seen.len(), 3);
    for i in 0usize..3 {
        assert_eq!(records[i].task_id, i as u32);
        assert_eq!(sink.seen[i].task_id, i as u32);
        assert_eq!(sink.seen[i].data, vec![i as u16]);
    }
}

#[test]
fn emit_aborts_on_sink_failure() {
    let outcomes = vec![outcome_with_id(0), outcome_with_id(1), outcome_with_id(2)];
    let mut sink = CollectingSink::failing_from(1);
    let r = emit_outcomes(outcomes, &mut sink);
    assert!(matches!(r, Err(ExecError::Sink(_))));
    assert_eq!(sink.seen.len(), 1);
    assert_eq!(sink.seen[0].task_id, 0);
}
