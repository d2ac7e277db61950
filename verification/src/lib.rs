//! Core of a topic-oriented message broker whose state is replicated through
//! a consensus log.
//!
//! Every replica applies the same committed entries to the same topic state
//! machine, so all state transitions here are deterministic functions of the
//! state and the entry.  What is local to one replica (the endpoints attached
//! to it and the waiters of its clients) is kept apart from what is
//! replicated, and never enters a snapshot.
use vstd::prelude::*;

pub mod protocol;
pub mod util;

verus! {

/// A point in time, in whole seconds.
///
/// The library never reads a clock: every timestamp that it stores was handed
/// to it by the caller.
#[derive(Clone, Copy, Debug, PartialEq, Eq, Structural, PartialOrd, Ord, Hash)]
pub struct TimestampSec {
    pub seconds: u64,
}

impl TimestampSec {
    pub fn new(seconds: u64) -> (time: Self)
        ensures
            time.seconds == seconds,
    {
        TimestampSec { seconds }
    }
}

} // verus!
