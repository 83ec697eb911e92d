//! The capabilities a ring must offer to be driven by the worker.
//!
//! The worker is proved against the contracts written here, so they are what
//! an implementation promises. Each trait that carries a tracking identifier
//! has a specification function, `user_data`, that names the identifier in
//! contracts; an implementation in plain Rust writes it as an ordinary method
//! that returns what `get_ud` returns.

use vstd::prelude::*;
use vstd::std_specs::iter::IteratorSpec;

verus! {

/// A unit of work for the submission side of a ring.
pub trait SubmissionQueueEntry: Send + 'static {
    /// The tracking identifier the entry carries.
    spec fn user_data(&self) -> u64;

    /// Stamps the entry with a tracking identifier, which `get_ud` returns
    /// from then on.
    fn set_ud(&mut self, ud: u64)
        ensures
            final(self).user_data() == ud,
    ;

    /// Reads the tracking identifier.
    fn get_ud(&self) -> (ud: u64)
        ensures
            ud == self.user_data(),
    ;
}

/// The submission side of a ring.
pub trait SubmissionQueue<S: SubmissionQueueEntry> {
    /// Offers an entry to the ring. `Ok` means the ring took it. `Err` means
    /// that there is no room right now, and hands the same entry back.
    fn push(&mut self, entry: S) -> (res: Result<(), S>)
        ensures
            res matches Err(back) ==> back == entry,
    ;
}

/// A result produced by the ring.
pub trait CompletionQueueEntry: Send + 'static {
    /// The tracking identifier of the submission that this completion answers.
    spec fn user_data(&self) -> u64;

    /// Reads the tracking identifier.
    fn get_ud(&self) -> (ud: u64)
        ensures
            ud == self.user_data(),
    ;
}

/// The completions that were ready at the moment the queue was obtained.
pub trait CompletionQueue<C: CompletionQueueEntry>: Iterator<Item = C> {

}

/// Wakes the backend of a ring.
pub trait Submitter {
    /// Tells the backend that there may be new work. Harmless when there is
    /// none.
    fn submit(&mut self);
}

/// A ring: both queues and the means to wake the backend.
pub trait FullRing<S, C, SQ, CQ>: Submitter where
    S: SubmissionQueueEntry,
    C: CompletionQueueEntry,
    SQ: SubmissionQueue<S>,
    CQ: CompletionQueue<C>,
 {
    /// The completions that are ready now. This is a snapshot, not a live
    /// stream: the queue yields finitely many entries and then ends, which is
    /// what lets the worker drain it to the end.
    fn completion(&mut self) -> (cq: CQ)
        ensures
            cq.obeys_prophetic_iter_laws(),
            cq.decrease() is Some,
    ;

    /// The submission side.
    fn submission(&mut self) -> SQ;
}

} // verus!
