//! A correlation layer over a submission/completion ring.
//!
//! One worker owns the ring. Callers hand it entries together with a one-shot
//! reply channel; the worker stamps each entry with a tracking identifier,
//! remembers the channel under that identifier, and fires the channel when the
//! ring echoes the identifier back on a completion.

use vstd::prelude::*;

pub mod channel;
pub mod journal;
pub mod model;
pub mod registry;
pub mod traits;
pub mod worker;

verus! {

/// A message for the worker that owns the ring.
#[derive(Debug)]
pub enum Signal<T, S> {
    /// Submit an entry; the second field is where its completion is delivered.
    Entry(T, S),
    /// Drain the completions that are available now, submitting nothing.
    Reap,
}

} // verus!
