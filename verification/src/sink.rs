//! The caller-supplied consumer of tile updates.

use vstd::prelude::*;
use crate::records::{TileUpdate, TileUpdateView};
use crate::SinkError;

verus! {

/// A sink receives each completed tile's update, strictly in ascending task
/// order, on the coordinating thread only.
///
/// `observed` is the sink's abstract log of accepted updates. `emit` either
/// accepts the update, extending the log by exactly that update, or rejects
/// it with an error, leaving the log unchanged; an error aborts the caller's
/// whole run. An embedding that forwards updates elsewhere implements this
/// trait and is responsible for meeting this contract.
pub trait Sink {
    spec fn observed(&self) -> Seq<TileUpdateView>;

    fn emit(&mut self, update: TileUpdate) -> (r: Result<(), SinkError>)
        ensures
            r is Ok ==> final(self).observed() == old(self).observed().push(update@),
            r is Err ==> final(self).observed() == old(self).observed(),
    ;
}

/// A sink that keeps every update it accepts, and can be set to refuse
/// updates from a given count on. It drives the executors in tests and gives
/// callers the full emission history.
pub struct CollectingSink {
    pub seen: Vec<TileUpdate>,
    pub fail_from: usize,
}

impl CollectingSink {
    /// A sink that accepts every update.
    pub fn new() -> (s: CollectingSink)
        ensures
            s.observed() == Seq::<TileUpdateView>::empty(),
            s.fail_from == usize::MAX,
    {
        CollectingSink { seen: Vec::new(), fail_from: usize::MAX }
    }

    /// A sink that accepts `n` updates and refuses every further one.
    pub fn failing_from(n: usize) -> (s: CollectingSink)
        ensures
            s.observed() == Seq::<TileUpdateView>::empty(),
            s.fail_from == n,
    {
        CollectingSink { seen: Vec::new(), fail_from: n }
    }
}

impl Sink for CollectingSink {
    open spec fn observed(&self) -> Seq<TileUpdateView> {
        self.seen@.map_values(|u: TileUpdate| u@)
    }

    fn emit(&mut self, update: TileUpdate) -> (r: Result<(), SinkError>)
        ensures
            r is Ok <==> old(self).seen@.len() < old(self).fail_from,
            final(self).fail_from == old(self).fail_from,
            r is Ok ==> final(self).seen@ == old(self).seen@.push(update),
            r is Err ==> final(self).seen@ == old(self).seen@,
    {
        if self.seen.len() < self.fail_from {
            let ghost pre = self.seen@;
            self.seen.push(update);
            proof {
                assert(self.seen@ == pre.push(update));
                assert(self.observed() =~= pre.map_values(|u: TileUpdate| u@).push(update@));
            }
            Ok(())
        } else {
            Err(SinkError { message: "sink refused the update".to_string() })
        }
    }
}

} // verus!
