//! What the worker does, written down as it happens, and what holds of such a
//! record.

use crate::model::RegistryState;
use crate::traits::{CompletionQueueEntry, SubmissionQueueEntry};
use vstd::prelude::*;

verus! {

/// One thing the worker did.
#[verifier::reject_recursive_types(C)]
pub enum Step<S, C> {
    /// It took this identifier, which was free, and registered this reply
    /// channel under it.
    Registered(u64, oneshot::Sender<C>),
    /// It offered this entry and the ring took it.
    Accepted(S),
    /// It offered this entry and the ring, being full, handed it back.
    Refused(S),
    /// It woke the backend.
    Notified,
    /// It took the completions that were ready, these and in this order, and
    /// handed them all to the registry.
    Drained(Seq<C>),
}

/// What a worker is, mathematically: its registry, and everything it has done
/// so far, oldest first.
#[verifier::reject_recursive_types(C)]
pub struct WorkerState<S, C> {
    /// The registry.
    pub registry: RegistryState<C>,
    /// Every step so far.
    pub journal: Seq<Step<S, C>>,
}

/// `step` is what stands at `place` in rounds of backpressure for `entry`: the
/// entry is refused, the completions are drained, the backend is woken; and
/// again.
pub open spec fn fits_refusal_round<S, C>(step: Step<S, C>, place: int, entry: S) -> bool {
    if place % 3 == 0 {
        step == Step::<S, C>::Refused(entry)
    } else if place % 3 == 1 {
        step is Drained
    } else {
        step == Step::<S, C>::Notified
    }
}

/// `steps` is nothing but whole rounds of backpressure for `entry`.
pub open spec fn refusal_rounds<S, C>(steps: Seq<Step<S, C>>, entry: S) -> bool {
    &&& steps.len() % 3 == 0
    &&& forall|i: int| 0 <= i < steps.len() ==> fits_refusal_round(#[trigger] steps[i], i, entry)
}

/// `steps` is the round in which `entry` goes through: the entry is accepted,
/// the backend is woken, the completions are drained.
pub open spec fn acceptance_round<S, C>(steps: Seq<Step<S, C>>, entry: S) -> bool {
    &&& steps.len() == 3
    &&& steps[0] == Step::<S, C>::Accepted(entry)
    &&& steps[1] == Step::<S, C>::Notified
    &&& steps[2] is Drained
}

/// `steps` is what offering `entry` again and again does, however often:
/// rounds of refusal, ended by the round of acceptance, in which case nothing
/// is handed back; or rounds of refusal only, in which case the entry is
/// handed back.
pub open spec fn retry_run<S, C>(steps: Seq<Step<S, C>>, entry: S, handed_back: Option<S>) -> bool {
    match handed_back {
        Some(back) => {
            &&& back == entry
            &&& refusal_rounds(steps, entry)
        },
        None => {
            &&& 3 <= steps.len()
            &&& refusal_rounds(steps.take(steps.len() - 3), entry)
            &&& acceptance_round(steps.skip(steps.len() - 3), entry)
        },
    }
}

/// `steps` is what pushing `entry` with backpressure does when `retries`
/// refusals are put up with before the last one: the entry goes through
/// within `retries + 1` rounds, or it is handed back after exactly
/// `retries + 1` rounds of refusal.
pub open spec fn push_run<S, C>(
    steps: Seq<Step<S, C>>,
    entry: S,
    retries: u64,
    handed_back: Option<S>,
) -> bool {
    &&& retry_run(steps, entry, handed_back)
    &&& steps.len() <= 3 * (retries + 1)
    &&& handed_back is Some ==> steps.len() == 3 * (retries + 1)
}

/// `steps` is what submitting an entry with the reply channel `reply` does
/// when `id` is the next free identifier: the channel is registered under
/// `id` first, and then the entry, stamped with `id`, is pushed with
/// backpressure.
pub open spec fn submit_run<S: SubmissionQueueEntry, C>(
    steps: Seq<Step<S, C>>,
    id: u64,
    reply: oneshot::Sender<C>,
    retries: u64,
    handed_back: Option<S>,
) -> bool {
    &&& steps.len() > 0
    &&& steps[0] == Step::<S, C>::Registered(id, reply)
    &&& exists|stamped: S|
        stamped.user_data() == id && #[trigger] push_run(
            steps.skip(1),
            stamped,
            retries,
            handed_back,
        )
}

/// No step of `steps` registers a channel.
pub open spec fn registers_nothing<S, C>(steps: Seq<Step<S, C>>) -> bool {
    forall|i: int| 0 <= i < steps.len() ==> !((#[trigger] steps[i]) is Registered)
}

/// The completions drained in a run of steps, in the order in which they came.
pub open spec fn drained<S, C>(steps: Seq<Step<S, C>>) -> Seq<C>
    decreases steps.len(),
{
    if steps.len() == 0 {
        Seq::empty()
    } else {
        match steps.last() {
            Step::Drained(batch) => drained(steps.drop_last()) + batch,
            _ => drained(steps.drop_last()),
        }
    }
}

/// `step` registers a channel under `id`.
pub open spec fn registers<S, C>(step: Step<S, C>, id: u64) -> bool {
    step matches Step::Registered(under, _) && under == id
}

/// `step` drains a completion that echoes `id`.
pub open spec fn answers<S, C: CompletionQueueEntry>(step: Step<S, C>, id: u64) -> bool {
    step matches Step::Drained(batch) && exists|k: int|
        0 <= k < batch.len() && (#[trigger] batch[k]).user_data() == id
}

/// Step number `i` of `journal` registers a channel under `id`, and no later
/// step registers another under `id` or drains a completion that echoes `id`.
pub open spec fn still_owed<S, C: CompletionQueueEntry>(
    journal: Seq<Step<S, C>>,
    id: u64,
    i: int,
) -> bool {
    &&& 0 <= i < journal.len()
    &&& registers(journal[i], id)
    &&& forall|j: int|
        i < j < journal.len() ==> !registers(#[trigger] journal[j], id) && !answers(journal[j], id)
}

impl<S: SubmissionQueueEntry, C: CompletionQueueEntry> WorkerState<S, C> {
    /// The worker that has done nothing yet.
    pub open spec fn fresh() -> Self {
        WorkerState { registry: RegistryState::empty(), journal: Seq::empty() }
    }

    /// The state after one step. Registering and draining touch the registry;
    /// nothing else does.
    pub open spec fn did(self, step: Step<S, C>) -> Self {
        WorkerState {
            registry: match step {
                Step::Registered(id, reply) => self.registry.allocated(id).inserted(id, reply),
                Step::Drained(batch) => self.registry.completed_all(batch),
                _ => self.registry,
            },
            journal: self.journal.push(step),
        }
    }

    /// The state after a run of steps, first to last.
    pub open spec fn did_all(self, steps: Seq<Step<S, C>>) -> Self
        decreases steps.len(),
    {
        if steps.len() == 0 {
            self
        } else {
            self.did_all(steps.drop_last()).did(steps.last())
        }
    }

    /// The completions of step number `at`, if it was a draining.
    pub open spec fn batch_at(self, at: int) -> Seq<C> {
        if 0 <= at < self.journal.len() {
            match self.journal[at] {
                Step::Drained(batch) => batch,
                _ => Seq::empty(),
            }
        } else {
            Seq::empty()
        }
    }

    /// The completions of the last step, if it was a draining.
    pub open spec fn last_batch(self) -> Seq<C> {
        self.batch_at(self.journal.len() - 1)
    }

    /// The state after the ring has taken an entry and the worker has done its
    /// part: it woke the backend, then drained `batch`.
    pub open spec fn settled_accepted(self, batch: Seq<C>) -> Self {
        self.did(Step::Notified).did(Step::Drained(batch))
    }

    /// The state after the ring has refused an entry and the worker has done
    /// its part: it drained `batch`, then woke the backend.
    pub open spec fn settled_refused(self, batch: Seq<C>) -> Self {
        self.did(Step::Drained(batch)).did(Step::Notified)
    }

    /// What the worker has done since it was in state `earlier`.
    pub open spec fn since(self, earlier: Self) -> Seq<Step<S, C>> {
        self.journal.skip(earlier.journal.len() as int)
    }

    /// `after` is this state once `entry` has been pushed with backpressure.
    pub open spec fn pushed(
        self,
        after: Self,
        entry: S,
        retries: u64,
        handed_back: Option<S>,
    ) -> bool {
        &&& after == self.did_all(after.since(self))
        &&& push_run(after.since(self), entry, retries, handed_back)
    }

    /// `after` is this state once `entry` has been offered again and again,
    /// however often.
    pub open spec fn retried(self, after: Self, entry: S, handed_back: Option<S>) -> bool {
        &&& after == self.did_all(after.since(self))
        &&& retry_run(after.since(self), entry, handed_back)
    }

    /// `after` is this state once an entry has been submitted with `reply` as
    /// its reply channel.
    pub open spec fn submitted(
        self,
        after: Self,
        reply: oneshot::Sender<C>,
        retries: u64,
        handed_back: Option<S>,
    ) -> bool {
        &&& after == self.did_all(after.since(self))
        &&& exists|id: u64|
            self.registry.is_next_free(id) && #[trigger] submit_run(
                after.since(self),
                id,
                reply,
                retries,
                handed_back,
            )
    }

    /// The registry is what the journal makes of an empty registry: the worker
    /// has never touched its registry but in the steps it wrote down.
    pub open spec fn coherent(self) -> bool {
        self == Self::fresh().did_all(self.journal)
    }

    /// A run of steps is appended to the journal as it stands.
    pub proof fn lemma_did_all_extends_journal(self, steps: Seq<Step<S, C>>)
        ensures
            self.did_all(steps).journal == self.journal + steps,
            self.did_all(steps).since(self) == steps,
        decreases steps.len(),
    {
        if steps.len() > 0 {
            self.lemma_did_all_extends_journal(steps.drop_last());
            assert(self.journal + steps =~= (self.journal + steps.drop_last()).push(
                steps.last(),
            ));
        }
        assert(self.journal + steps =~= self.did_all(steps).journal);
        assert((self.journal + steps).skip(self.journal.len() as int) =~= steps);
    }

    /// Doing a run of steps and then one more is doing the run with that one
    /// at its end.
    pub proof fn lemma_did_all_push(self, steps: Seq<Step<S, C>>, step: Step<S, C>)
        ensures
            self.did_all(steps.push(step)) == self.did_all(steps).did(step),
    {
        assert(steps.push(step).drop_last() =~= steps);
    }

    /// Doing a run of one step is doing that step.
    pub proof fn lemma_did_all_one(self, step: Step<S, C>)
        ensures
            self.did_all(seq![step]) == self.did(step),
    {
        assert(seq![step] =~= Seq::<Step<S, C>>::empty().push(step));
        self.lemma_did_all_push(Seq::empty(), step);
    }

    /// Doing one run of steps after another is doing the two runs joined.
    pub proof fn lemma_did_all_concat(self, first: Seq<Step<S, C>>, second: Seq<Step<S, C>>)
        ensures
            self.did_all(first + second) == self.did_all(first).did_all(second),
        decreases second.len(),
    {
        if second.len() == 0 {
            assert(first + second =~= first);
        } else {
            self.lemma_did_all_concat(first, second.drop_last());
            assert((first + second).drop_last() =~= first + second.drop_last());
        }
    }

    /// One step keeps the worker coherent.
    pub proof fn lemma_step_keeps_coherent(self, step: Step<S, C>)
        requires
            self.coherent(),
        ensures
            self.did(step).coherent(),
    {
        self.lemma_did_all_one(step);
        self.lemma_steps_keep_coherent(seq![step]);
    }

    /// The worker starts coherent and every step keeps it so.
    pub proof fn lemma_steps_keep_coherent(self, steps: Seq<Step<S, C>>)
        requires
            self.coherent(),
        ensures
            Self::fresh().coherent(),
            self.did_all(steps).coherent(),
    {
        self.lemma_did_all_extends_journal(steps);
        Self::fresh().lemma_did_all_concat(self.journal, steps);
    }

    /// For the registry, a run of steps that registers nothing comes to the
    /// completions that were drained in it, handled in the order in which
    /// they came.
    pub proof fn lemma_registry_sees_only_completions(self, steps: Seq<Step<S, C>>)
        requires
            registers_nothing(steps),
        ensures
            self.did_all(steps).registry == self.registry.completed_all(drained(steps)),
        decreases steps.len(),
    {
        if steps.len() > 0 {
            assert forall|i: int| 0 <= i < steps.drop_last().len() implies !((
            #[trigger] steps.drop_last()[i]) is Registered) by {
                assert(steps.drop_last()[i] == steps[i]);
            }
            self.lemma_registry_sees_only_completions(steps.drop_last());
            match steps.last() {
                Step::Drained(batch) => {
                    self.registry.lemma_completed_all_concat(drained(steps.drop_last()), batch);
                },
                _ => {},
            }
        }
    }

    /// As long as nothing is registered, the registry only loses channels, and
    /// only to completions: what still waits afterwards waited before under
    /// the same identifier, the cursor stays, and the log of deliveries grows
    /// at its end.
    pub proof fn lemma_ring_steps_only_complete(self, steps: Seq<Step<S, C>>)
        requires
            registers_nothing(steps),
        ensures
            self.did_all(steps).registry.pending.submap_of(self.registry.pending),
            self.did_all(steps).registry.cursor == self.registry.cursor,
            self.registry.delivered.is_prefix_of(self.did_all(steps).registry.delivered),
    {
        self.lemma_registry_sees_only_completions(steps);
        self.registry.lemma_completions_only_remove(drained(steps));
    }

    /// A submission is never lost to the registry. Its reply channel was
    /// registered under an identifier that was free, so it took no other
    /// channel's place; and when the submission returns, whether the ring took
    /// the entry or not, that channel either still waits under the identifier
    /// and has not been fired, or it has been fired exactly once, with a
    /// completion that echoes the identifier.
    pub proof fn lemma_submission_is_correlated(
        self,
        after: Self,
        reply: oneshot::Sender<C>,
        retries: u64,
        handed_back: Option<S>,
    )
        requires
            self.submitted(after, reply, retries, handed_back),
        ensures
            exists|id: u64|
                {
                    let registered = #[trigger] self.did(Step::Registered(id, reply)).registry;
                    &&& self.registry.is_next_free(id)
                    &&& self.registry.pending.submap_of(registered.pending)
                    &&& registered.pending[id] == reply
                    &&& after.registry.waits_since(registered, id) != after.registry.fired_since(
                        registered,
                        id,
                    )
                },
    {
        let steps = after.since(self);
        let id = choose|id: u64|
            self.registry.is_next_free(id) && #[trigger] submit_run(
                steps,
                id,
                reply,
                retries,
                handed_back,
            );
        let stamped = choose|stamped: S|
            stamped.user_data() == id && #[trigger] push_run(
                steps.skip(1),
                stamped,
                retries,
                handed_back,
            );
        let first = seq![steps[0]];
        let rest = steps.skip(1);
        let registered = self.did(Step::Registered(id, reply));
        assert(first + rest =~= steps);
        assert(steps[0] == Step::<S, C>::Registered(id, reply));
        self.lemma_did_all_one(steps[0]);
        self.lemma_did_all_concat(first, rest);
        lemma_push_registers_nothing(rest, stamped, handed_back);
        registered.lemma_registry_sees_only_completions(rest);
        registered.registry.lemma_reply_waits_or_was_fired(drained(rest), id);
    }

    /// A driver that pushes a handed-back entry again, as often as it takes,
    /// does nothing but offer that one entry again and again. Between two
    /// pushes nothing happens; the entry is the same each time; the ring takes
    /// it at most once, and once it has taken it the entry is not offered
    /// again.
    pub proof fn lemma_retrying_carries_on(
        self,
        between: Self,
        after: Self,
        entry: S,
        handed_back: Option<S>,
    )
        requires
            self.retried(between, entry, Some(entry)),
            between.retried(after, entry, handed_back),
        ensures
            self.retried(after, entry, handed_back),
    {
        let first = between.since(self);
        let second = after.since(between);
        self.lemma_did_all_extends_journal(first);
        between.lemma_did_all_extends_journal(second);
        self.lemma_did_all_concat(first, second);
        self.lemma_did_all_extends_journal(first + second);
        lemma_pushing_again_carries_on(first, second, entry, handed_back);
    }

    /// The log of deliveries only grows at its end, whatever the worker does.
    pub proof fn lemma_log_only_grows(self, steps: Seq<Step<S, C>>)
        ensures
            self.registry.delivered.is_prefix_of(self.did_all(steps).registry.delivered),
        decreases steps.len(),
    {
        if steps.len() > 0 {
            let before = self.did_all(steps.drop_last());
            let after = self.did_all(steps);
            self.lemma_log_only_grows(steps.drop_last());
            match steps.last() {
                Step::Drained(batch) => {
                    before.registry.lemma_completions_only_remove(batch);
                },
                _ => {},
            }
            assert(before.registry.delivered.is_prefix_of(after.registry.delivered));
            assert(self.registry.delivered =~= after.registry.delivered.subrange(
                0,
                self.registry.delivered.len() as int,
            ));
        }
    }

    /// A channel that waits is never lost and never fired twice, whatever the
    /// worker does next: other submissions, drainings, refusals, in any order
    /// and number. As long as no other channel is registered under its
    /// identifier, it either still waits there and has not been fired, or it
    /// has left the registry and has been fired exactly once, with a
    /// completion that echoes its identifier.
    pub proof fn lemma_reply_is_answered_once(self, steps: Seq<Step<S, C>>, id: u64)
        requires
            self.registry.pending.contains_key(id),
            forall|i: int| 0 <= i < steps.len() ==> !registers(#[trigger] steps[i], id),
        ensures
            self.did_all(steps).registry.waits_since(self.registry, id) != self.did_all(
                steps,
            ).registry.fired_since(self.registry, id),
        decreases steps.len(),
    {
        let start = self.registry;
        let after = self.did_all(steps).registry;
        if steps.len() == 0 {
            assert(after.waits_since(start, id));
        } else {
            let before = self.did_all(steps.drop_last()).registry;
            assert forall|i: int| 0 <= i < steps.drop_last().len() implies !registers(
                #[trigger] steps.drop_last()[i],
                id,
            ) by {
                assert(steps.drop_last()[i] == steps[i]);
            }
            self.lemma_reply_is_answered_once(steps.drop_last(), id);
            self.lemma_log_only_grows(steps.drop_last());
            self.lemma_log_only_grows(steps);
            assert(!registers(steps[steps.len() - 1], id));
            match steps.last() {
                Step::Registered(other, _) => {
                    if before.waits_since(start, id) {
                        assert(after.waits_since(start, id));
                    } else {
                        let k = choose|k: int| before.fired_at(start, id, k);
                        assert(after.fired_at(start, id, k));
                    }
                },
                Step::Drained(batch) => {
                    before.lemma_completions_only_remove(batch);
                    if before.waits_since(start, id) {
                        before.lemma_reply_waits_or_was_fired(batch, id);
                        if after.waits_since(before, id) {
                            assert forall|j: int|
                                start.delivered.len() <= j < after.delivered.len() implies (
                            #[trigger] after.delivered[j]).entry.user_data() != id by {
                                if j < before.delivered.len() {
                                    assert(after.delivered[j] == before.delivered[j]);
                                }
                            }
                            assert(after.waits_since(start, id));
                        } else {
                            let k = choose|k: int| after.fired_at(before, id, k);
                            assert forall|j: int|
                                start.delivered.len() <= j < after.delivered.len() && j
                                    != k implies (#[trigger] after.delivered[j]).entry.user_data()
                                != id by {
                                if j < before.delivered.len() {
                                    assert(after.delivered[j] == before.delivered[j]);
                                }
                            }
                            assert(after.fired_at(start, id, k));
                        }
                    } else {
                        let k = choose|k: int| before.fired_at(start, id, k);
                        before.lemma_nothing_waits_nothing_fired(batch, id);
                        assert(after.delivered[k] == before.delivered[k]);
                        assert forall|j: int|
                            start.delivered.len() <= j < after.delivered.len() && j != k implies (
                        #[trigger] after.delivered[j]).entry.user_data() != id by {
                            if j < before.delivered.len() {
                                assert(after.delivered[j] == before.delivered[j]);
                            }
                        }
                        assert(after.fired_at(start, id, k));
                    }
                },
                _ => {
                    if before.waits_since(start, id) {
                        assert(after.waits_since(start, id));
                    } else {
                        let k = choose|k: int| before.fired_at(start, id, k);
                        assert(after.fired_at(start, id, k));
                    }
                },
            }
        }
    }

    /// From the moment a submission is registered, its reply channel is
    /// answered at most once and by nothing but its own completion, through
    /// every signal the worker handles afterwards, until the identifier is
    /// handed out again: the channel waits unfired, or it has been fired
    /// exactly once with a completion that echoes its identifier.
    pub proof fn lemma_submission_is_answered_once(
        self,
        id: u64,
        reply: oneshot::Sender<C>,
        steps: Seq<Step<S, C>>,
    )
        requires
            forall|i: int| 0 <= i < steps.len() ==> !registers(#[trigger] steps[i], id),
        ensures
            ({
                let registered = self.did(Step::Registered(id, reply));
                let after = registered.did_all(steps);
                &&& registered.registry.pending[id] == reply
                &&& after.registry.waits_since(registered.registry, id)
                    != after.registry.fired_since(registered.registry, id)
            }),
    {
        self.did(Step::Registered(id, reply)).lemma_reply_is_answered_once(steps, id);
    }

    /// An identifier is handed out again only after the channel that waited
    /// under it has been fired: if, after any run of steps that registers
    /// nothing under `id`, `id` is the next free identifier, then the channel
    /// that waited under `id` has been fired exactly once, with a completion
    /// that echoes `id`.
    pub proof fn lemma_identifier_is_reused_only_after_firing(
        self,
        steps: Seq<Step<S, C>>,
        id: u64,
    )
        requires
            self.registry.pending.contains_key(id),
            forall|i: int| 0 <= i < steps.len() ==> !registers(#[trigger] steps[i], id),
            self.did_all(steps).registry.is_next_free(id),
        ensures
            self.did_all(steps).registry.fired_since(self.registry, id),
    {
        self.lemma_reply_is_answered_once(steps, id);
    }

    /// Every delivery the worker ever made went to a channel that it had
    /// registered under the identifier that the completion echoes: no
    /// completion reaches the channel of another submission.
    pub proof fn lemma_deliveries_go_to_registered_channels(self, k: int)
        requires
            self.coherent(),
            0 <= k < self.registry.delivered.len(),
        ensures
            exists|i: int|
                0 <= i < self.journal.len() && #[trigger] self.journal[i] == Step::<
                    S,
                    C,
                >::Registered(
                    self.registry.delivered[k].entry.user_data(),
                    self.registry.delivered[k].channel,
                ),
        decreases self.journal.len(),
    {
        let journal = self.journal;
        if journal.len() > 0 {
            let earlier = journal.drop_last();
            let before = Self::fresh().did_all(earlier);
            Self::fresh().lemma_did_all_extends_journal(earlier);
            let delivery = self.registry.delivered[k];
            let id = delivery.entry.user_data();
            match journal.last() {
                Step::Drained(batch) => {
                    before.registry.lemma_completions_only_remove(batch);
                    if k < before.registry.delivered.len() {
                        assert(before.registry.delivered[k] == delivery);
                        before.lemma_deliveries_go_to_registered_channels(k);
                        let i = choose|i: int|
                            0 <= i < earlier.len() && #[trigger] earlier[i] == Step::<
                                S,
                                C,
                            >::Registered(id, delivery.channel);
                        assert(journal[i] == earlier[i]);
                    } else {
                        before.registry.lemma_deliveries_go_to_who_waited(batch);
                        before.lemma_waiting_is_what_is_still_owed(id);
                        let i = choose|i: int| still_owed(earlier, id, i);
                        assert(journal[i] == earlier[i]);
                    }
                },
                _ => {
                    assert(before.registry.delivered == self.registry.delivered);
                    before.lemma_deliveries_go_to_registered_channels(k);
                    let i = choose|i: int|
                        0 <= i < earlier.len() && #[trigger] earlier[i] == Step::<
                            S,
                            C,
                        >::Registered(id, delivery.channel);
                    assert(journal[i] == earlier[i]);
                },
            }
        }
    }

    /// What waits is what is still owed, and nothing else. A channel waits
    /// under an identifier exactly if the worker registered it there and has
    /// since neither registered another there nor drained a completion that
    /// echoes the identifier.
    pub proof fn lemma_waiting_is_what_is_still_owed(self, id: u64)
        requires
            self.coherent(),
        ensures
            self.registry.pending.contains_key(id) <==> exists|i: int|
                still_owed(self.journal, id, i),
            forall|i: int| #[trigger]
                still_owed(self.journal, id, i) ==> self.journal[i] == Step::<S, C>::Registered(
                    id,
                    self.registry.pending[id],
                ),
        decreases self.journal.len(),
    {
        let journal = self.journal;
        if journal.len() > 0 {
            let before = Self::fresh().did_all(journal.drop_last());
            let last = journal.last();
            Self::fresh().lemma_did_all_extends_journal(journal.drop_last());
            before.lemma_waiting_is_what_is_still_owed(id);
            let earlier = journal.drop_last();
            assert forall|i: int| 0 <= i < earlier.len() implies (still_owed(journal, id, i)
                <==> still_owed(earlier, id, i) && !registers(last, id) && !answers(last, id)) by {
                if still_owed(journal, id, i) {
                    assert forall|j: int| i < j < earlier.len() implies !registers(
                        #[trigger] earlier[j],
                        id,
                    ) && !answers(earlier[j], id) by {
                        assert(earlier[j] == journal[j]);
                    }
                    assert(journal[earlier.len() as int] == last);
                }
                if still_owed(earlier, id, i) && !registers(last, id) && !answers(last, id) {
                    assert forall|j: int| i < j < journal.len() implies !registers(
                        #[trigger] journal[j],
                        id,
                    ) && !answers(journal[j], id) by {
                        if j < earlier.len() {
                            assert(earlier[j] == journal[j]);
                        }
                    }
                }
            }
            match last {
                Step::Registered(under, reply) => {
                    if under == id {
                        assert(still_owed(journal, id, journal.len() - 1));
                    } else {
                        if before.registry.pending.contains_key(id) {
                            let i = choose|i: int| still_owed(earlier, id, i);
                            assert(still_owed(journal, id, i));
                        }
                    }
                },
                Step::Drained(batch) => {
                    before.registry.lemma_completions_only_remove(batch);
                    if answers(last, id) {
                        let k = choose|k: int|
                            0 <= k < batch.len() && (#[trigger] batch[k]).user_data() == id;
                        before.registry.lemma_echoed_identifier_no_longer_waits(batch, k);
                    } else {
                        if before.registry.pending.contains_key(id) {
                            before.registry.lemma_other_completions_leave_waiting(batch, id);
                            let i = choose|i: int| still_owed(earlier, id, i);
                            assert(still_owed(journal, id, i));
                        }
                    }
                },
                _ => {
                    if before.registry.pending.contains_key(id) {
                        let i = choose|i: int| still_owed(earlier, id, i);
                        assert(still_owed(journal, id, i));
                    }
                },
            }
        }
    }
}

/// Offering an entry registers nothing.
pub proof fn lemma_push_registers_nothing<S, C>(
    steps: Seq<Step<S, C>>,
    entry: S,
    handed_back: Option<S>,
)
    requires
        retry_run(steps, entry, handed_back),
    ensures
        registers_nothing(steps),
{
    let rounds = if handed_back is None {
        steps.take(steps.len() - 3)
    } else {
        steps
    };
    assert forall|i: int| 0 <= i < rounds.len() implies !((#[trigger] rounds[i]) is Registered) by {
        let r = i % 3;
        assert(r == 0 || r == 1 || r == 2);
    }
    if handed_back is None {
        let last = steps.skip(steps.len() - 3);
        assert forall|i: int| 0 <= i < steps.len() implies !((#[trigger] steps[i]) is Registered) by {
            if i < steps.len() - 3 {
                assert(steps[i] == rounds[i]);
            } else {
                assert(steps[i] == last[i - (steps.len() - 3)]);
            }
        }
    }
}

/// Offering an entry again and again neither loses it nor gets it accepted
/// twice: either the ring accepts it exactly once, as the third step from the
/// end, and nothing is handed back; or the ring never accepts anything and
/// the entry is handed back. No other entry is ever offered, and nothing is
/// offered once the entry has been accepted.
pub proof fn lemma_push_accepts_at_most_once<S, C>(
    steps: Seq<Step<S, C>>,
    entry: S,
    handed_back: Option<S>,
)
    requires
        retry_run(steps, entry, handed_back),
    ensures
        handed_back is None ==> steps[steps.len() - 3] == Step::<S, C>::Accepted(entry),
        forall|i: int|
            0 <= i < steps.len() && (#[trigger] steps[i]) is Accepted ==> handed_back is None && i
                == steps.len() - 3,
        forall|i: int|
            0 <= i < steps.len() ==> ((#[trigger] steps[i]) matches Step::Refused(e) ==> e
                == entry && (handed_back is None ==> i < steps.len() - 3)),
{
    let rounds = if handed_back is None {
        steps.take(steps.len() - 3)
    } else {
        steps
    };
    assert forall|i: int| 0 <= i < rounds.len() implies !((#[trigger] rounds[i]) is Accepted)
        && (rounds[i] matches Step::Refused(e) ==> e == entry) by {
        let r = i % 3;
        assert(r == 0 || r == 1 || r == 2);
    }
    if handed_back is None {
        let last = steps.skip(steps.len() - 3);
        assert(last[0] == steps[steps.len() - 3]);
        assert forall|i: int| 0 <= i < steps.len() implies ((#[trigger] steps[i]) is Accepted ==> i
            == steps.len() - 3) && (steps[i] matches Step::Refused(e) ==> e == entry && i
            < steps.len() - 3) by {
            if i < steps.len() - 3 {
                assert(steps[i] == rounds[i]);
            } else {
                assert(steps[i] == last[i - (steps.len() - 3)]);
            }
        }
    }
}

/// Pushing an entry that was handed back carries on where the last push
/// stopped: however often a driver pushes the entry again, all it has done is
/// to offer that one entry again and again, and the ring has taken it at most
/// once, at the very end.
pub proof fn lemma_pushing_again_carries_on<S, C>(
    first: Seq<Step<S, C>>,
    second: Seq<Step<S, C>>,
    entry: S,
    handed_back: Option<S>,
)
    requires
        retry_run(first, entry, Some(entry)),
        retry_run(second, entry, handed_back),
    ensures
        retry_run(first + second, entry, handed_back),
{
    let all = first + second;
    let rounds = if handed_back is None {
        second.take(second.len() - 3)
    } else {
        second
    };
    let joined = first + rounds;
    assert forall|i: int| 0 <= i < joined.len() implies fits_refusal_round(
        #[trigger] joined[i],
        i,
        entry,
    ) by {
        if i < first.len() {
            assert(joined[i] == first[i]);
        } else {
            let j = i - first.len();
            assert(joined[i] == rounds[j]);
            assert(j % 3 == i % 3);
            assert(fits_refusal_round(rounds[j], j, entry));
        }
    }
    if handed_back is None {
        assert(all.take(all.len() - 3) =~= joined);
        assert(all.skip(all.len() - 3) =~= second.skip(second.len() - 3));
    } else {
        assert(all =~= joined);
    }
}

} // verus!
