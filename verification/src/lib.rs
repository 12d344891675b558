//! Tile-scheduled escape-time rendering.
//!
//! The image grid is partitioned once into raster-ordered tiles, each carrying
//! a stable global index. An executor walks the tiles under an advisory
//! wall-clock budget, renders each tile through a caller-supplied kernel, and
//! emits the results to a caller-supplied sink in strictly ascending task
//! order. The chunked pipeline mirrors the same walk split into contiguous
//! per-worker chunks; a threaded driver around this crate runs the chunks on
//! worker threads and feeds their outputs back through the verified merge,
//! sort and emission steps.

use vstd::prelude::*;

pub mod clock;
pub mod kernel;
pub mod parallel;
pub mod records;
pub mod sequential;
pub mod sink;
pub mod tiles;

verus! {

/// Error raised by a sink that rejects an update; it aborts the whole call.
#[derive(Debug)]
pub struct SinkError {
    pub message: String,
}

/// Why a call failed. Budget exhaustion is not an error: it yields a normal
/// return with a shorter record sequence.
#[derive(Debug)]
pub enum ExecError {
    /// A zero image dimension, zero tile dimension, or zero worker count.
    Config,
    /// The sink rejected an update; the call aborts with that error.
    Sink(SinkError),
    /// A worker terminated abnormally. Raised only by drivers that join
    /// worker threads; the in-crate executors never produce it.
    Worker,
}

} // verus!
