//! The worker: the one owner of the ring and of the registry.
//!
//! A driver hands the worker one signal after another, in the order in which
//! they were sent, and stops when there are none left. The worker itself never
//! waits for a signal, so it can be driven from any loop or thread.
//!
//! What the ring answers to an offer is not the worker's to decide. What the
//! worker does with each answer is [`Worker::settle`]; [`Worker::push`] offers
//! the entry, settles the answer, and counts the refusals.

use crate::journal::{fits_refusal_round, push_run, refusal_rounds, submit_run, Step, WorkerState};
use crate::registry::Registry;
use crate::traits::{
    CompletionQueue,
    CompletionQueueEntry,
    FullRing,
    SubmissionQueue,
    SubmissionQueueEntry,
};
use crate::Signal;
use std::marker::PhantomData;
use vstd::prelude::*;

verus! {

/// Owns a ring and the registry of the reply channels that wait on it, and is
/// the only one to touch either.
#[verifier::reject_recursive_types(C)]
pub struct Worker<S, C, SQ, CQ, Ring> where
    S: SubmissionQueueEntry,
    C: CompletionQueueEntry,
    SQ: SubmissionQueue<S>,
    CQ: CompletionQueue<C>,
    Ring: FullRing<S, C, SQ, CQ>,
 {
    /// The ring. Nothing else holds it.
    ring: Ring,
    /// The reply channels that wait for completions from the ring.
    registry: Registry<C>,
    /// Every step taken so far, oldest first. Each step is written down where
    /// it is taken. The proofs speak of this record; it does not exist at run
    /// time.
    journal: Ghost<Seq<Step<S, C>>>,
    /// The queue types of the ring, which no field holds.
    queues: PhantomData<(SQ, CQ)>,
}

impl<S, C, SQ, CQ, Ring> View for Worker<S, C, SQ, CQ, Ring> where
    S: SubmissionQueueEntry,
    C: CompletionQueueEntry,
    SQ: SubmissionQueue<S>,
    CQ: CompletionQueue<C>,
    Ring: FullRing<S, C, SQ, CQ>,
 {
    type V = WorkerState<S, C>;

    closed spec fn view(&self) -> WorkerState<S, C> {
        WorkerState { registry: self.registry@, journal: self.journal@ }
    }
}

impl<S, C, SQ, CQ, Ring> Worker<S, C, SQ, CQ, Ring> where
    S: SubmissionQueueEntry,
    C: CompletionQueueEntry,
    SQ: SubmissionQueue<S>,
    CQ: CompletionQueue<C>,
    Ring: FullRing<S, C, SQ, CQ>,
 {
    /// A worker for `ring`, with an empty registry.
    pub fn new(ring: Ring) -> (worker: Self)
        ensures
            worker@ == WorkerState::<S, C>::fresh(),
            worker@.coherent(),
    {
        Worker { ring, registry: Registry::new(), journal: Ghost(Seq::empty()), queues: PhantomData }
    }

    /// The registry, to look at.
    pub fn registry(&self) -> (registry: &Registry<C>)
        ensures
            registry@ == self@.registry,
    {
        &self.registry
    }

    /// The worker's registry never holds as many channels as there are
    /// identifiers, so a submission always finds a free one.
    pub proof fn lemma_room_for_another(&self)
        ensures
            self@.registry.pending.dom().finite(),
            self@.registry.pending.dom().len() <= u64::MAX,
            exists|id: u64| self@.registry.is_next_free(id),
    {
        self.registry.lemma_room_for_another();
    }

    /// Wakes the backend of the ring.
    fn notify(&mut self)
        ensures
            final(self)@ == old(self)@.did(Step::Notified),
            old(self)@.coherent() ==> final(self)@.coherent(),
    {
        self.ring.submit();
        self.journal = Ghost(self.journal@.push(Step::Notified));
        proof {
            if old(self)@.coherent() {
                old(self)@.lemma_step_keeps_coherent(Step::Notified);
            }
        }
    }

    /// Takes the completions that are ready now and hands each to the channel
    /// that waits for it.
    pub fn reap(&mut self)
        ensures
            final(self)@ == old(self)@.did(Step::Drained(final(self)@.last_batch())),
            old(self)@.coherent() ==> final(self)@.coherent(),
    {
        let ready = self.ring.completion();
        let seen = self.registry.drain(ready);
        self.journal = Ghost(self.journal@.push(Step::Drained(seen@)));
        proof {
            if old(self)@.coherent() {
                old(self)@.lemma_step_keeps_coherent(Step::Drained(seen@));
            }
        }
    }

    /// Does the worker's part once the ring has answered an offer.
    ///
    /// Where the ring took the entry, the backend is woken and the completions
    /// are drained, and nothing is handed back. Where the ring refused the
    /// entry, the completions are drained first, to make room, then the
    /// backend is woken, and the refused entry is handed back to be offered
    /// again.
    pub fn settle(&mut self, answer: Result<(), S>) -> (refused: Option<S>)
        ensures
            match answer {
                Ok(()) => {
                    &&& refused is None
                    &&& final(self)@ == old(self)@.settled_accepted(final(self)@.last_batch())
                },
                Err(back) => {
                    &&& refused == Some(back)
                    &&& final(self)@ == old(self)@.settled_refused(
                        final(self)@.batch_at(old(self)@.journal.len() as int),
                    )
                },
            },
            old(self)@.coherent() ==> final(self)@.coherent(),
    {
        match answer {
            Ok(()) => {
                self.notify();
                self.reap();
                None
            },
            Err(back) => {
                self.reap();
                self.notify();
                Some(back)
            },
        }
    }

    /// Pushes `entry` onto the ring, with backpressure: as long as the ring
    /// refuses the entry for want of room, the completions are drained, the
    /// backend is woken, and the same entry is offered again. Once the ring
    /// has taken it, the backend is woken and the completions are drained once
    /// more.
    ///
    /// So that the call is sure to return, the refusals it puts up with are
    /// counted: after `retries + 1` of them the entry is handed back. A driver
    /// that wants to wait for the ring without limit pushes it again.
    pub fn push(&mut self, entry: S, retries: u64) -> (handed_back: Option<S>)
        ensures
            old(self)@.pushed(final(self)@, entry, retries, handed_back),
            old(self)@.coherent() ==> final(self)@.coherent(),
    {
        let ghost before = self@;
        let ghost mut steps: Seq<Step<S, C>> = Seq::empty();
        let mut held = entry;
        let mut left: u64 = retries;
        loop
            invariant
                held == entry,
                left <= retries,
                before == old(self)@,
                self@ == before.did_all(steps),
                steps.len() == 3 * (retries - left),
                refusal_rounds(steps, entry),
            decreases left,
        {
            let ghost rounds = steps;
            let mut queue = self.ring.submission();
            let answer = queue.push(held);
            let ghost offered = if answer is Ok {
                Step::<S, C>::Accepted(entry)
            } else {
                Step::<S, C>::Refused(entry)
            };
            self.journal = Ghost(self.journal@.push(offered));
            let ghost answered = self@;
            let refused = self.settle(answer);
            proof {
                let first = if answer is Ok {
                    Step::<S, C>::Notified
                } else {
                    Step::<S, C>::Drained(self@.batch_at(answered.journal.len() as int))
                };
                let second = if answer is Ok {
                    Step::<S, C>::Drained(self@.last_batch())
                } else {
                    Step::<S, C>::Notified
                };
                before.lemma_did_all_push(steps, offered);
                before.lemma_did_all_push(steps.push(offered), first);
                before.lemma_did_all_push(steps.push(offered).push(first), second);
                steps = steps.push(offered).push(first).push(second);
                before.lemma_did_all_extends_journal(steps);
                if before.coherent() {
                    before.lemma_steps_keep_coherent(steps);
                }
                let at: int = rounds.len() as int;
                if answer is Ok {
                    assert(steps.take(steps.len() - 3) =~= rounds);
                    let last = steps.skip(steps.len() - 3);
                    assert(last[0] == steps[at]);
                    assert(last[1] == steps[at + 1]);
                    assert(last[2] == steps[at + 2]);
                } else {
                    assert forall|i: int| 0 <= i < steps.len() implies fits_refusal_round(
                        #[trigger] steps[i],
                        i,
                        entry,
                    ) by {
                        if i < rounds.len() {
                            assert(steps[i] == rounds[i]);
                        }
                    }
                }
            }
            match refused {
                None => {
                    return None;
                },
                Some(back) => {
                    if left == 0 {
                        return Some(back);
                    }
                    left = left - 1;
                    held = back;
                },
            }
        }
    }

    /// Submits `entry`: registers `reply` under the next free identifier,
    /// stamps the entry with that identifier, and only then pushes it, with
    /// backpressure, so that no completion can arrive before its channel waits.
    pub fn submit(&mut self, entry: S, reply: oneshot::Sender<C>, retries: u64) -> (handed_back:
        Option<S>)
        ensures
            old(self)@.submitted(final(self)@, reply, retries, handed_back),
            old(self)@.coherent() ==> final(self)@.coherent(),
    {
        let mut entry = entry;
        let id: u64 = self.registry.next_uuid();
        entry.set_ud(id);
        self.registry.insert(id, reply);
        self.journal = Ghost(self.journal@.push(Step::Registered(id, reply)));
        let ghost registered = self@;
        let handed_back = self.push(entry, retries);
        proof {
            let before = old(self)@;
            let first = seq![Step::<S, C>::Registered(id, reply)];
            let rest = self@.since(registered);
            before.lemma_did_all_one(Step::Registered(id, reply));
            before.lemma_did_all_concat(first, rest);
            before.lemma_did_all_extends_journal(first + rest);
            assert((first + rest).skip(1) =~= rest);
            assert(push_run((first + rest).skip(1), entry, retries, handed_back));
            assert(submit_run(self@.since(before), id, reply, retries, handed_back));
            if before.coherent() {
                before.lemma_steps_keep_coherent(first + rest);
            }
        }
        handed_back
    }

    /// Does what one signal asks for: submits the entry it carries, or drains
    /// the completions that are ready.
    pub fn handle(&mut self, signal: Signal<S, oneshot::Sender<C>>, retries: u64) -> (handed_back:
        Option<S>)
        ensures
            match signal {
                Signal::Entry(_, reply) => old(self)@.submitted(
                    final(self)@,
                    reply,
                    retries,
                    handed_back,
                ),
                Signal::Reap => {
                    &&& handed_back is None
                    &&& final(self)@ == old(self)@.did(
                        Step::Drained(final(self)@.last_batch()),
                    )
                },
            },
            old(self)@.coherent() ==> final(self)@.coherent(),
    {
        match signal {
            Signal::Entry(entry, reply) => self.submit(entry, reply, retries),
            Signal::Reap => {
                self.reap();
                None
            },
        }
    }
}

} // verus!
