//! The registry as a mathematical object, and what holds of it.

use crate::traits::CompletionQueueEntry;
use vstd::prelude::*;

verus! {

/// How far `to` lies ahead of `from` when identifiers are counted upwards and
/// wrap around after `u64::MAX`.
pub open spec fn ahead(from: u64, to: u64) -> int {
    if to >= from {
        to - from
    } else {
        to - from + 0x1_0000_0000_0000_0000
    }
}

/// One completion handed to the reply channel that was waiting for it.
#[verifier::reject_recursive_types(C)]
pub struct Delivery<C> {
    /// The channel that was fired.
    pub channel: oneshot::Sender<C>,
    /// The completion that was sent through it.
    pub entry: C,
}

/// What a registry is, mathematically.
#[verifier::reject_recursive_types(C)]
pub struct RegistryState<C> {
    /// The reply channels that still wait, by tracking identifier.
    pub pending: Map<u64, oneshot::Sender<C>>,
    /// Where the search for the next free identifier starts.
    pub cursor: u64,
    /// Every delivery made so far, oldest first.
    pub delivered: Seq<Delivery<C>>,
}

impl<C: CompletionQueueEntry> RegistryState<C> {
    /// The registry nothing has happened to yet.
    pub open spec fn empty() -> Self {
        RegistryState { pending: Map::empty(), cursor: 0, delivered: Seq::empty() }
    }

    /// `id` is the identifier that allocation hands out: it is free, and every
    /// identifier between the cursor and it is taken.
    pub open spec fn is_next_free(self, id: u64) -> bool {
        &&& !self.pending.contains_key(id)
        &&& forall|x: u64|
            ahead(self.cursor, x) < ahead(self.cursor, id) ==> #[trigger] self.pending.contains_key(
                x,
            )
    }

    /// The state after `id` has been handed out: the cursor stands just past it.
    pub open spec fn allocated(self, id: u64) -> Self {
        RegistryState { cursor: if id == u64::MAX { 0 } else { (id + 1) as u64 }, ..self }
    }

    /// The state after `channel` has been stored under `id`, replacing whatever
    /// was stored there.
    pub open spec fn inserted(self, id: u64, channel: oneshot::Sender<C>) -> Self {
        RegistryState { pending: self.pending.insert(id, channel), ..self }
    }

    /// The state after one completion has been handled: the channel that waits
    /// for its identifier leaves the registry and receives it; where no channel
    /// waits, nothing changes.
    pub open spec fn completed(self, entry: C) -> Self {
        let id = entry.user_data();
        if self.pending.contains_key(id) {
            RegistryState {
                pending: self.pending.remove(id),
                delivered: self.delivered.push(Delivery { channel: self.pending[id], entry }),
                ..self
            }
        } else {
            self
        }
    }

    /// The state after a run of completions has been handled, first to last.
    pub open spec fn completed_all(self, entries: Seq<C>) -> Self
        decreases entries.len(),
    {
        if entries.len() == 0 {
            self
        } else {
            self.completed_all(entries.drop_last()).completed(entries.last())
        }
    }

    /// The channel that waited under `id` in state `earlier` still waits there,
    /// and has not been fired since.
    pub open spec fn waits_since(self, earlier: Self, id: u64) -> bool {
        &&& self.pending.contains_key(id)
        &&& self.pending[id] == earlier.pending[id]
        &&& forall|j: int|
            earlier.delivered.len() <= j < self.delivered.len() ==> (
            #[trigger] self.delivered[j]).entry.user_data() != id
    }

    /// Delivery number `k` fired the channel that waited under `id` in state
    /// `earlier`, with a completion that echoes `id`, and no other delivery
    /// since that state carried a completion that echoes `id`.
    pub open spec fn fired_at(self, earlier: Self, id: u64, k: int) -> bool {
        &&& earlier.delivered.len() <= k < self.delivered.len()
        &&& self.delivered[k].channel == earlier.pending[id]
        &&& self.delivered[k].entry.user_data() == id
        &&& forall|j: int|
            earlier.delivered.len() <= j < self.delivered.len() && j != k ==> (
            #[trigger] self.delivered[j]).entry.user_data() != id
    }

    /// The channel that waited under `id` in state `earlier` has left the
    /// registry and has been fired exactly once since.
    pub open spec fn fired_since(self, earlier: Self, id: u64) -> bool {
        &&& !self.pending.contains_key(id)
        &&& exists|k: int| self.fired_at(earlier, id, k)
    }

    /// Handling one run of completions after another is handling the two runs
    /// joined.
    pub proof fn lemma_completed_all_concat(self, first: Seq<C>, second: Seq<C>)
        ensures
            self.completed_all(first + second) == self.completed_all(first).completed_all(second),
        decreases second.len(),
    {
        if second.len() == 0 {
            assert(first + second =~= first);
        } else {
            self.lemma_completed_all_concat(first, second.drop_last());
            assert((first + second).drop_last() =~= first + second.drop_last());
        }
    }

    /// A run of completions is handled by handling its first, then the rest.
    pub proof fn lemma_completed_all_first(self, entries: Seq<C>)
        requires
            entries.len() > 0,
        ensures
            self.completed_all(entries) == self.completed(entries[0]).completed_all(
                entries.drop_first(),
            ),
    {
        let head = seq![entries[0]];
        assert(self.completed_all(head) == self.completed(entries[0])) by {
            assert(head.drop_last() =~= Seq::<C>::empty());
            assert(self.completed_all(head.drop_last()) == self);
        }
        self.lemma_completed_all_concat(head, entries.drop_first());
        assert(head + entries.drop_first() =~= entries);
    }

    /// Completions only ever take channels away: what still waits afterwards
    /// waited before, under the same identifier; the cursor stays; and the
    /// log of deliveries only grows at its end.
    pub proof fn lemma_completions_only_remove(self, entries: Seq<C>)
        ensures
            self.completed_all(entries).pending.submap_of(self.pending),
            self.completed_all(entries).cursor == self.cursor,
            self.delivered.is_prefix_of(self.completed_all(entries).delivered),
        decreases entries.len(),
    {
        if entries.len() > 0 {
            self.lemma_completions_only_remove(entries.drop_last());
        }
    }

    /// A completion nobody waits for changes nothing, wherever in a run it
    /// stands: the run is handled as if it were not there.
    pub proof fn lemma_stray_completion_is_skipped(self, before: Seq<C>, stray: C, after: Seq<C>)
        requires
            !self.completed_all(before).pending.contains_key(stray.user_data()),
        ensures
            self.completed_all(before.push(stray)) == self.completed_all(before),
            self.completed_all(before.push(stray) + after) == self.completed_all(before + after),
    {
        assert(before.push(stray).drop_last() =~= before);
        self.lemma_completed_all_concat(before.push(stray), after);
        self.lemma_completed_all_concat(before, after);
    }

    /// Of two completions that echo the same identifier the first is delivered
    /// and the second is dropped.
    pub proof fn lemma_first_completion_wins(self, first: C, second: C)
        requires
            first.user_data() == second.user_data(),
        ensures
            self.completed(first).completed(second) == self.completed(first),
    {
    }

    /// Completions for different identifiers do not disturb one another: in
    /// either order the same channels stay, and each channel that is fired
    /// receives the same completion.
    pub proof fn lemma_distinct_completions_commute(self, a: C, b: C)
        requires
            a.user_data() != b.user_data(),
        ensures
            self.completed(a).completed(b).pending == self.completed(b).completed(a).pending,
            self.completed(a).completed(b).delivered.to_multiset() == self.completed(b).completed(
                a,
            ).delivered.to_multiset(),
    {
        broadcast use vstd::seq_lib::group_to_multiset_ensures;

        let ab = self.completed(a).completed(b);
        let ba = self.completed(b).completed(a);
        assert(ab.pending =~= ba.pending);
        assert(ab.delivered.to_multiset() =~= ba.delivered.to_multiset());
    }

    /// At most one identifier is the next free one.
    pub proof fn lemma_next_free_is_unique(self, a: u64, b: u64)
        requires
            self.is_next_free(a),
            self.is_next_free(b),
        ensures
            a == b,
    {
        if ahead(self.cursor, a) < ahead(self.cursor, b) {
            assert(self.pending.contains_key(a));
        } else if ahead(self.cursor, b) < ahead(self.cursor, a) {
            assert(self.pending.contains_key(b));
        }
    }

    /// Where some identifier is free, one of the free identifiers is the next
    /// free one.
    pub proof fn lemma_next_free_exists(self, free: u64)
        requires
            !self.pending.contains_key(free),
        ensures
            exists|id: u64| self.is_next_free(id),
        decreases ahead(self.cursor, free),
    {
        if exists|x: u64|
            ahead(self.cursor, x) < ahead(self.cursor, free) && !self.pending.contains_key(x) {
            let nearer = choose|x: u64|
                ahead(self.cursor, x) < ahead(self.cursor, free) && !self.pending.contains_key(x);
            self.lemma_next_free_exists(nearer);
        } else {
            assert(self.is_next_free(free));
        }
    }

    /// Allocation cannot run out: as long as fewer than 2^64 channels wait,
    /// there is a next free identifier.
    pub proof fn lemma_allocation_succeeds(self)
        requires
            self.pending.dom().finite(),
            self.pending.dom().len() <= u64::MAX,
        ensures
            exists|id: u64| self.is_next_free(id),
    {
        lemma_free_id_exists(self.pending.dom());
        self.lemma_next_free_exists(some_free_id(self.pending.dom()));
    }

    /// The identifier handed out next differs from every identifier whose
    /// channel still waits.
    pub proof fn lemma_fresh_id_is_not_outstanding(self, fresh: u64, outstanding: u64)
        requires
            self.is_next_free(fresh),
            self.pending.contains_key(outstanding),
        ensures
            fresh != outstanding,
    {
    }

    /// Two submissions registered one after the other carry different
    /// identifiers as long as the first still waits, whatever completions were
    /// handled in between.
    pub proof fn lemma_ids_in_flight_differ(
        self,
        first: u64,
        reply: oneshot::Sender<C>,
        between: Seq<C>,
        second: u64,
    )
        requires
            self.is_next_free(first),
            ({
                let later = self.allocated(first).inserted(first, reply).completed_all(between);
                later.pending.contains_key(first) && later.is_next_free(second)
            }),
        ensures
            first != second,
    {
    }

    /// A channel that waits is fired by the first completion in a run that
    /// echoes its identifier, and by that completion only.
    pub proof fn lemma_matching_completion_is_delivered(self, before: Seq<C>, entry: C)
        requires
            self.pending.contains_key(entry.user_data()),
            forall|i: int|
                0 <= i < before.len() ==> (#[trigger] before[i]).user_data() != entry.user_data(),
        ensures
            ({
                let after = self.completed_all(before.push(entry));
                &&& !after.pending.contains_key(entry.user_data())
                &&& after.delivered.last() == Delivery {
                    channel: self.pending[entry.user_data()],
                    entry,
                }
            }),
    {
        self.lemma_other_completions_leave_waiting(before, entry.user_data());
        assert(before.push(entry).drop_last() =~= before);
    }

    /// A channel that waits is never lost. After any run of completions it
    /// either still waits under its identifier and has not been fired, or it
    /// has left the registry and has been fired exactly once, with a
    /// completion that echoes its identifier.
    pub proof fn lemma_reply_waits_or_was_fired(self, entries: Seq<C>, id: u64)
        requires
            self.pending.contains_key(id),
        ensures
            self.completed_all(entries).waits_since(self, id) != self.completed_all(
                entries,
            ).fired_since(self, id),
        decreases entries.len(),
    {
        let after = self.completed_all(entries);
        self.lemma_completions_only_remove(entries);
        if entries.len() == 0 {
            assert(after.waits_since(self, id));
        } else {
            let before = self.completed_all(entries.drop_last());
            let last = entries.last();
            self.lemma_reply_waits_or_was_fired(entries.drop_last(), id);
            self.lemma_completions_only_remove(entries.drop_last());
            if before.waits_since(self, id) {
                if last.user_data() == id {
                    let k = before.delivered.len() as int;
                    assert(after.delivered[k].entry == last);
                    assert(after.fired_at(self, id, k));
                    assert(after.fired_since(self, id));
                } else if before.pending.contains_key(last.user_data()) {
                    assert(after.waits_since(self, id));
                }
            } else {
                let k = choose|k: int| before.fired_at(self, id, k);
                assert(after.delivered[k] == before.delivered[k]);
                assert forall|j: int|
                    self.delivered.len() <= j < after.delivered.len() && j != k implies (
                #[trigger] after.delivered[j]).entry.user_data() != id by {
                    if j < before.delivered.len() {
                        assert(after.delivered[j] == before.delivered[j]);
                    }
                }
                assert(after.fired_at(self, id, k));
            }
        }
    }

    /// Where no channel waits under an identifier, no completion that echoes
    /// it is delivered, and still no channel waits under it afterwards.
    pub proof fn lemma_nothing_waits_nothing_fired(self, entries: Seq<C>, id: u64)
        requires
            !self.pending.contains_key(id),
        ensures
            !self.completed_all(entries).pending.contains_key(id),
            forall|j: int|
                self.delivered.len() <= j < self.completed_all(entries).delivered.len() ==> (
                #[trigger] self.completed_all(entries).delivered[j]).entry.user_data() != id,
        decreases entries.len(),
    {
        if entries.len() > 0 {
            self.lemma_nothing_waits_nothing_fired(entries.drop_last(), id);
            self.lemma_completions_only_remove(entries.drop_last());
        }
    }

    /// Every delivery of a run of completions goes to the channel that waited,
    /// before the run, under the identifier that the completion echoes.
    pub proof fn lemma_deliveries_go_to_who_waited(self, entries: Seq<C>)
        ensures
            forall|j: int|
                self.delivered.len() <= j < self.completed_all(entries).delivered.len() ==> {
                    let delivery = #[trigger] self.completed_all(entries).delivered[j];
                    &&& self.pending.contains_key(delivery.entry.user_data())
                    &&& delivery.channel == self.pending[delivery.entry.user_data()]
                },
        decreases entries.len(),
    {
        if entries.len() > 0 {
            self.lemma_deliveries_go_to_who_waited(entries.drop_last());
            self.lemma_completions_only_remove(entries.drop_last());
        }
    }

    /// After a run of completions no channel waits under an identifier that
    /// one of them echoes.
    pub proof fn lemma_echoed_identifier_no_longer_waits(self, entries: Seq<C>, k: int)
        requires
            0 <= k < entries.len(),
        ensures
            !self.completed_all(entries).pending.contains_key(entries[k].user_data()),
        decreases entries.len(),
    {
        if k < entries.len() - 1 {
            self.lemma_echoed_identifier_no_longer_waits(entries.drop_last(), k);
        }
    }

    /// A channel keeps waiting, under its identifier, through every run of
    /// completions that echo other identifiers.
    pub proof fn lemma_other_completions_leave_waiting(self, entries: Seq<C>, id: u64)
        requires
            self.pending.contains_key(id),
            forall|i: int| 0 <= i < entries.len() ==> (#[trigger] entries[i]).user_data() != id,
        ensures
            self.completed_all(entries).pending.contains_key(id),
            self.completed_all(entries).pending[id] == self.pending[id],
        decreases entries.len(),
    {
        if entries.len() > 0 {
            self.lemma_other_completions_leave_waiting(entries.drop_last(), id);
        }
    }
}

/// Some identifier that is not in `taken`, if there is one.
pub open spec fn some_free_id(taken: Set<u64>) -> u64 {
    choose|x: u64| !taken.contains(x)
}

/// A set of fewer than 2^64 identifiers leaves at least one identifier out.
pub proof fn lemma_free_id_exists(taken: Set<u64>)
    requires
        taken.finite(),
        taken.len() <= u64::MAX,
    ensures
        !taken.contains(some_free_id(taken)),
{
    if forall|x: u64| taken.contains(x) {
        let below_max = Set::<u64>::range(0, u64::MAX);
        let all = below_max.insert(u64::MAX);
        vstd::set_lib::range_set_properties::<u64>(0, u64::MAX);
        assert(all.len() == 0x1_0000_0000_0000_0000);
        assert(all.subset_of(taken));
        vstd::set_lib::lemma_len_subset(all, taken);
    }
}

} // verus!
