//! The correlation registry: which reply channel waits for which tracking
//! identifier, and which identifier is handed out next.

use crate::model::{ahead, lemma_free_id_exists, some_free_id, Delivery, RegistryState};
use crate::traits::CompletionQueueEntry;
use std::collections::HashMap;
use vstd::prelude::*;
use vstd::std_specs::iter::IteratorSpec;

verus! {

broadcast use vstd::std_specs::hash::group_hash_axioms;

/// Maps tracking identifiers to the reply channels that wait for them.
#[verifier::reject_recursive_types(C)]
pub struct Registry<C: CompletionQueueEntry> {
    /// The reply channels that wait, by tracking identifier.
    senders: HashMap<u64, oneshot::Sender<C>>,
    /// Where the search for the next free identifier starts.
    curr_ud: u64,
    /// Which channel was fired with which completion, oldest first. The proofs
    /// speak of this record; it does not exist at run time.
    delivered: Ghost<Seq<Delivery<C>>>,
}

impl<C: CompletionQueueEntry> View for Registry<C> {
    type V = RegistryState<C>;

    closed spec fn view(&self) -> RegistryState<C> {
        RegistryState {
            pending: self.senders@,
            cursor: self.curr_ud,
            delivered: self.delivered@,
        }
    }
}

impl<C: CompletionQueueEntry> Registry<C> {
    /// An empty registry whose first identifier will be 0.
    pub fn new() -> (registry: Self)
        ensures
            registry@ == RegistryState::<C>::empty(),
    {
        Self { senders: HashMap::new(), curr_ud: 0, delivered: Ghost(Seq::empty()) }
    }

    /// An empty registry whose search for identifiers starts at `first`.
    pub fn starting_at(first: u64) -> (registry: Self)
        ensures
            registry@ == (RegistryState::<C> { cursor: first, ..RegistryState::<C>::empty() }),
    {
        Self { senders: HashMap::new(), curr_ud: first, delivered: Ghost(Seq::empty()) }
    }

    /// A registry never holds as many channels as there are identifiers, so
    /// there is always a next free identifier to hand out.
    pub proof fn lemma_room_for_another(&self)
        ensures
            self@.pending.dom().finite(),
            self@.pending.dom().len() <= u64::MAX,
            exists|id: u64| self@.is_next_free(id),
    {
        assert(self.senders@.dom().len() == vstd::std_specs::hash::spec_hash_map_len(
            &self.senders,
        ));
        self@.lemma_allocation_succeeds();
    }

    /// Where the search for the next identifier starts.
    pub fn curr_ud(&self) -> (ud: u64)
        ensures
            ud == self@.cursor,
    {
        self.curr_ud
    }

    /// Hands out the cursor and moves it on by one, wrapping after `u64::MAX`.
    fn incr_ud(&mut self) -> (out: u64)
        ensures
            out == old(self)@.cursor,
            final(self)@ == old(self)@.allocated(out),
    {
        let out: u64 = self.curr_ud;
        self.curr_ud = self.curr_ud.wrapping_add(1);
        out
    }

    /// Hands out the first identifier, counting up from the cursor and
    /// wrapping around, under which no channel waits. The cursor then stands
    /// just past it.
    ///
    /// The search always ends: the map holds fewer channels than there are
    /// identifiers, so some identifier is free.
    pub fn next_uuid(&mut self) -> (id: u64)
        ensures
            old(self)@.is_next_free(id),
            final(self)@ == old(self)@.allocated(id),
    {
        let ghost start: u64 = self.curr_ud;
        let ghost spare: u64 = some_free_id(self.senders@.dom());
        proof {
            assert(self.senders@.dom().len() == vstd::std_specs::hash::spec_hash_map_len(
                &self.senders,
            ));
            lemma_free_id_exists(self.senders@.dom());
        }
        loop
            invariant
                self.senders@ == old(self).senders@,
                self.delivered@ == old(self).delivered@,
                start == old(self).curr_ud,
                !self.senders@.contains_key(spare),
                ahead(start, self.curr_ud) <= ahead(start, spare),
                forall|x: u64|
                    ahead(start, x) < ahead(start, self.curr_ud)
                        ==> #[trigger] self.senders@.contains_key(x),
            decreases ahead(start, spare) - ahead(start, self.curr_ud),
        {
            let id: u64 = self.incr_ud();
            if !self.senders.contains_key(&id) {
                return id;
            }
        }
    }

    /// Stores `sender` under `user_data`, replacing a channel already stored
    /// there.
    pub fn insert(&mut self, user_data: u64, sender: oneshot::Sender<C>)
        ensures
            final(self)@ == old(self)@.inserted(user_data, sender),
    {
        self.senders.insert(user_data, sender);
    }

    /// Handles one completion: the channel that waits for its identifier is
    /// taken out of the registry and fired with it. A completion nobody waits
    /// for is dropped, and so is a completion whose receiver has gone away.
    pub fn complete(&mut self, entry: C)
        ensures
            final(self)@ == old(self)@.completed(entry),
    {
        let id: u64 = entry.get_ud();
        match self.senders.remove(&id) {
            Some(sender) => {
                self.delivered = Ghost(
                    self.delivered@.push(Delivery { channel: sender, entry }),
                );
                let _outcome = sender.send(entry);
            },
            None => {
                assert(self.senders@ =~= old(self).senders@);
            },
        }
    }

    /// Handles a run of completions, first to last.
    pub fn batch_complete<I>(&mut self, entries: I) where I: Iterator<Item = C>
        requires
            entries.obeys_prophetic_iter_laws(),
            entries.decrease() is Some,
        ensures
            final(self)@ == old(self)@.completed_all(entries.remaining()),
    {
        let _seen = self.drain(entries);
    }

    /// Handles a run of completions, first to last, and says which they were.
    pub(crate) fn drain<I>(&mut self, entries: I) -> (seen: Ghost<Seq<C>>) where
        I: Iterator<Item = C>,

        requires
            entries.obeys_prophetic_iter_laws(),
            entries.decrease() is Some,
        ensures
            seen@ == entries.remaining(),
            final(self)@ == old(self)@.completed_all(seen@),
    {
        let mut rest = entries;
        let mut seen: Ghost<Seq<C>> = Ghost(Seq::empty());
        loop
            invariant
                rest.obeys_prophetic_iter_laws(),
                rest.decrease() is Some,
                seen@ + rest.remaining() == entries.remaining(),
                self@ == old(self)@.completed_all(seen@),
            ensures
                seen@ == entries.remaining(),
                self@ == old(self)@.completed_all(seen@),
            decreases rest.decrease()->0,
        {
            let ghost ahead_of_us = rest.remaining();
            match rest.next() {
                Some(entry) => {
                    self.complete(entry);
                    proof {
                        assert(seen@.push(entry).drop_last() =~= seen@);
                        assert(seen@.push(entry) + ahead_of_us.drop_first() =~= seen@
                            + ahead_of_us);
                    }
                    seen = Ghost(seen@.push(entry));
                },
                None => {
                    assert(seen@ + ahead_of_us =~= seen@);
                    break ;
                },
            }
        }
        seen
    }
}

} // verus!
