//! The states of a slot, and what relates a table to a later state of itself.

use vstd::prelude::*;
use crate::count::lemma_count_agree;
use crate::hashing::full_hash;
use crate::slot::{Key, StableHash, Value};
use crate::table::{KVs, REPROBE_LIMIT};

verus! {

/// The states of a slot: what its key cell and its value cell hold together.
#[derive(Clone, Copy, Debug, PartialEq, Eq, Structural)]
pub enum SlotState {
    /// No key, no value.
    Unused,
    /// Sealed while empty. Terminal.
    Sealed,
    /// A key, and no value yet.
    Claimed,
    /// A key whose value is deleted.
    Deleted,
    /// A key and its value.
    Live,
    /// A key and its value, frozen: the value is on its way to the successor table.
    Frozen,
    /// A key whose value, if it had one, is in the successor table. Terminal.
    Moved,
}

/// The state of a slot whose cells hold `k` and `v`.
pub open spec fn slot_state<K, V>(k: Key<K>, v: Value<V>) -> SlotState {
    match k {
        Key::Empty => SlotState::Unused,
        Key::TombStone => SlotState::Sealed,
        Key::Present(_) => match v {
            Value::Empty => SlotState::Claimed,
            Value::TombStone => SlotState::Deleted,
            Value::Present(_) => SlotState::Live,
            Value::Prime(_) => SlotState::Frozen,
            Value::TombPrime => SlotState::Moved,
        },
    }
}

/// Whether a slot in state `a` can come to be in state `b`: an unused slot is sealed or
/// claimed; a claimed slot gets a value, which is deleted and set again at will; a value is
/// frozen, a frozen value is moved out, and a slot without a value is moved out at once.
/// Nothing leads back.
pub open spec fn state_reaches(a: SlotState, b: SlotState) -> bool {
    match a {
        SlotState::Unused => true,
        SlotState::Sealed => b == SlotState::Sealed,
        SlotState::Claimed => b != SlotState::Unused && b != SlotState::Sealed,
        SlotState::Deleted | SlotState::Live => b == SlotState::Deleted || b == SlotState::Live
            || b == SlotState::Frozen || b == SlotState::Moved,
        SlotState::Frozen => b == SlotState::Frozen || b == SlotState::Moved,
        SlotState::Moved => b == SlotState::Moved,
    }
}

/// Whether a slot that holds `k1` and `v1` can come to hold `k2` and `v2`: its state moves
/// forward, its key stays, and a frozen value stays what it is until it is moved out.
pub open spec fn slot_advances<K, V>(k1: Key<K>, v1: Value<V>, k2: Key<K>, v2: Value<V>) -> bool {
    &&& state_reaches(slot_state(k1, v1), slot_state(k2, v2))
    &&& !(k1 is Empty) ==> k2 == k1
    &&& !(v1 is Empty) ==> !(v2 is Empty)
    &&& v1 is Prime ==> v2 == v1 || v2 is TombPrime
    &&& v1 is TombPrime ==> v2 is TombPrime
}

impl<K: StableHash, V: Copy> KVs<K, V> {
    /// `after` is this table one transition of slot `idx` later, or this table unchanged.
    pub open spec fn steps_to(&self, after: KVs<K, V>, idx: int) -> bool {
        &&& self.wf()
        &&& after.wf()
        &&& 0 <= idx < self.cap()
        &&& after.cap() == self.cap()
        &&& forall|i: int|
            0 <= i < self.cap() && i != idx ==> #[trigger] after.ks@[i] == self.ks@[i]
        &&& forall|i: int|
            0 <= i < self.cap() && i != idx ==> #[trigger] after.vs@[i] == self.vs@[i]
        &&& !(self.ks@[idx] is Empty) ==> after.ks@[idx] == self.ks@[idx]
        &&& !(after.ks@[idx] is Present) || self.ks@[idx] is Empty ==> after.vs@[idx]
            == self.vs@[idx]
        &&& self.vs@[idx].is_prime() ==> after.vs@[idx].is_prime()
        &&& self.vs@[idx] is TombPrime ==> after.vs@[idx] is TombPrime
        &&& !self.vs@[idx].is_prime() && after.vs@[idx].is_prime() ==> after.vs@[idx]
            == self.vs@[idx].primed()
        &&& self.vs@[idx] is Prime ==> after.vs@[idx] == self.vs@[idx] || after.vs@[idx] is TombPrime
        &&& !(self.vs@[idx] is Empty) ==> !(after.vs@[idx] is Empty)
        &&& after.chm.newkvs == self.chm.newkvs
        &&& after.chm.copy_idx == self.chm.copy_idx
        &&& after.chm.copy_done == self.chm.copy_done
        &&& after.chm.has_newkvs == self.chm.has_newkvs
    }

    /// `after` is this table after migration steps only: key cells were sealed, value cells
    /// frozen or moved out, and nothing was written.
    pub open spec fn migrated(&self, after: KVs<K, V>) -> bool {
        &&& after.cap() == self.cap()
        &&& after.vs@.len() == self.vs@.len()
        &&& forall|i: int|
            0 <= i < self.cap() ==> {
                &&& (#[trigger] after.ks@[i] == self.ks@[i] || (self.ks@[i] is Empty
                    && after.ks@[i] is TombStone))
                &&& (after.vs@[i] == self.vs@[i] || after.vs@[i] == self.vs@[i].primed()
                    || after.vs@[i] is TombPrime)
            }
    }

    /// `after` is a later state of this table: every slot has moved forward or stayed, a
    /// successor that was recorded is still the successor, and no credit was taken back.
    pub open spec fn advanced(&self, after: KVs<K, V>) -> bool {
        &&& after.cap() == self.cap()
        &&& self.vs@.len() == self.cap()
        &&& after.vs@.len() == self.cap()
        &&& forall|i: int|
            0 <= i < self.cap() ==> slot_advances(
                self.ks@[i],
                self.vs@[i],
                #[trigger] after.ks@[i],
                after.vs@[i],
            )
        &&& self.chm.newkvs is Some ==> after.chm.newkvs == self.chm.newkvs
        &&& after.chm.copy_done >= self.chm.copy_done
    }

    /// A table whose key cells only went from empty to occupied, and kept what they held,
    /// places its keys where it placed them before.
    pub proof fn lemma_grown(&self, after: KVs<K, V>)
        requires
            self.cap() > 0,
            after.cap() == self.cap(),
            forall|i: int|
                0 <= i < self.cap() && !(#[trigger] self.ks@[i] is Empty) ==> after.ks@[i]
                    == self.ks@[i],
        ensures
            forall|k: K, d: int| #[trigger] self.reach(k, d) ==> after.reach(k, d),
            forall|k: K, i: int| #[trigger] self.placed(i, k) ==> after.placed(i, k),
    {
        assert forall|k: K, d: int| #[trigger] self.reach(k, d) implies after.reach(k, d) by {
            assert forall|e: int| 0 <= e < d implies !(after.ks@[#[trigger] after.probe(k, e)] is Empty) by {
                assert(self.probe(k, e) == after.probe(k, e));
                self.lemma_probe_range(k, e);
                assert(!(self.ks@[self.probe(k, e)] is Empty));
            }
        }
        assert forall|k: K, i: int| #[trigger] self.placed(i, k) implies after.placed(i, k) by {
            assert(self.dist(k, i) == after.dist(k, i));
            assert(self.reach(k, self.dist(k, i)));
        }
    }

    /// A transition of slot `idx` leaves alone what the table says of a key that the slot
    /// does not hold.
    pub proof fn lemma_step_frame(&self, after: KVs<K, V>, idx: int, k: K)
        requires
            self.steps_to(after, idx),
            after.ks@[idx] != Key::Present(k),
        ensures
            after.local(k) == self.local(k),
            after.has_key(k) == self.has_key(k),
    {
        if self.has_key(k) {
            let i = self.slot_of(k);
            assert(i != idx);
            assert(after.ks@[i] == Key::Present(k));
            after.lemma_local_at(i, k);
            self.lemma_local_at(i, k);
        } else if after.has_key(k) {
            let i = after.slot_of(k);
            assert(i != idx);
            assert(self.ks@[i] == Key::Present(k));
        }
    }

    /// A transition of slot `idx` leaves the key that the slot held there.
    pub proof fn lemma_step_held(&self, after: KVs<K, V>, idx: int, k: K)
        requires
            self.steps_to(after, idx),
            after.ks@[idx] == Key::Present(k),
        ensures
            after.local(k) == Some(after.vs@[idx]),
            self.ks@[idx] is Empty ==> self.local(k) is None && !self.window_full(k),
            !(self.ks@[idx] is Empty) ==> self.local(k) == Some(self.vs@[idx]),
    {
        after.lemma_local_at(idx, k);
        if self.ks@[idx] is Empty {
            if self.has_key(k) {
                let i = self.slot_of(k);
                assert(after.ks@[i] == Key::Present(k));
                assert(after.ks@[idx] is Present);
            }
            assert(after.placed(idx, k));
            after.lemma_dist(k, idx);
            let d = after.dist(k, idx);
            assert(self.probe(k, d) == after.probe(k, d));
            if self.window_full(k) {
                assert(!(self.ks@[self.probe(k, d)] is Empty));
            }
        } else {
            self.lemma_local_at(idx, k);
        }
    }

    /// A key that the table handed on before a transition is handed on after it.
    pub proof fn lemma_step_passes(&self, after: KVs<K, V>, idx: int, k: K)
        requires
            self.steps_to(after, idx),
            self.passes(k),
        ensures
            after.passes(k),
    {
        if after.ks@[idx] == Key::Present(k) {
            self.lemma_step_held(after, idx, k);
        } else {
            self.lemma_step_frame(after, idx, k);
            if self.local(k) is None {
                self.lemma_grown(after);
                assert(self.reach(k, REPROBE_LIMIT as int));
            }
        }
    }

    /// What a table says of its keys, and what it counts, depends on its cells alone.
    pub proof fn lemma_same_cells(&self, after: KVs<K, V>)
        requires
            self.same_cells(after),
        ensures
            forall|k: K| #[trigger] after.local(k) == self.local(k),
            forall|k: K| #[trigger] after.passes(k) == self.passes(k),
            after.used_count() == self.used_count(),
            after.live_count() == self.live_count(),
            after.filled_count() == self.filled_count(),
            after.terminal_count() == self.terminal_count(),
            after.paired() == self.paired(),
            after.settled() == self.settled(),
            after.unique() == self.unique(),
            after.untouched() == self.untouched(),
            after.all_terminal() == self.all_terminal(),
    {
        lemma_count_agree(self.cap(), self.is_used(), after.is_used());
        lemma_count_agree(self.cap(), self.is_live(), after.is_live());
        lemma_count_agree(self.cap(), self.is_filled(), after.is_filled());
        lemma_count_agree(self.cap(), self.is_terminal(), after.is_terminal());
        assert forall|k: K| #[trigger] after.local(k) == self.local(k) by {
            assert(after.has_key(k) == self.has_key(k));
        }
        assert forall|k: K| #[trigger] after.passes(k) == self.passes(k) by {
            assert(after.local(k) == self.local(k));
            assert(after.window_full(k) == self.window_full(k)) by {
                if self.window_full(k) {
                    assert forall|e: int| 0 <= e < REPROBE_LIMIT implies !(after.ks@[
                    #[trigger] after.probe(k, e)] is Empty) by {
                        assert(self.probe(k, e) == after.probe(k, e));
                    }
                }
                if after.window_full(k) {
                    assert forall|e: int| 0 <= e < REPROBE_LIMIT implies !(self.ks@[
                    #[trigger] self.probe(k, e)] is Empty) by {
                        assert(self.probe(k, e) == after.probe(k, e));
                    }
                }
            }
        }
        assert(after.all_terminal() == self.all_terminal()) by {
            if self.all_terminal() {
                assert forall|i: int| 0 <= i < after.cap() implies #[trigger] after.terminal(i) by {
                    assert(self.terminal(i));
                }
            }
            if after.all_terminal() {
                assert forall|i: int| 0 <= i < self.cap() implies #[trigger] self.terminal(i) by {
                    assert(after.terminal(i));
                }
            }
        }
        assert(after.settled() == self.settled()) by {
            if self.settled() {
                assert forall|i: int|
                    0 <= i < after.cap() && #[trigger] after.ks@[i] is Present implies {
                    &&& after.hashes@[i] == full_hash(after.ks@[i]->Present_0)
                    &&& after.placed(i, after.ks@[i]->Present_0)
                } by {
                    let k = after.ks@[i]->Present_0;
                    assert(self.ks@[i] is Present);
                    assert(self.placed(i, k));
                    self.lemma_grown(after);
                }
            }
            if after.settled() {
                assert forall|i: int|
                    0 <= i < self.cap() && #[trigger] self.ks@[i] is Present implies {
                    &&& self.hashes@[i] == full_hash(self.ks@[i]->Present_0)
                    &&& self.placed(i, self.ks@[i]->Present_0)
                } by {
                    let k = self.ks@[i]->Present_0;
                    assert(after.ks@[i] is Present);
                    assert(after.placed(i, k));
                    after.lemma_grown(*self);
                }
            }
        }
    }

    /// Migration steps leave a table with the keys it had, and what it handed on it still
    /// hands on.
    pub proof fn lemma_migrated(&self, after: KVs<K, V>, k: K)
        requires
            self.unique(),
            after.unique(),
            self.cap() > 0,
            self.migrated(after),
        ensures
            after.has_key(k) == self.has_key(k),
            self.local(k) is Some ==> after.local(k) is Some && (after.local(k)->Some_0
                == self.local(k)->Some_0 || after.local(k)->Some_0
                == self.local(k)->Some_0.primed() || after.local(k)->Some_0 is TombPrime),
            self.passes(k) ==> after.passes(k),
            self.window_full(k) ==> after.window_full(k),
    {
        if self.has_key(k) {
            let i = self.slot_of(k);
            assert(after.ks@[i] == self.ks@[i]);
            after.lemma_local_at(i, k);
            self.lemma_local_at(i, k);
        } else if after.has_key(k) {
            let i = after.slot_of(k);
            assert(after.ks@[i] == self.ks@[i]);
        }
        if self.window_full(k) {
            assert forall|e: int| 0 <= e < REPROBE_LIMIT implies !(after.ks@[#[trigger] after.probe(
                k,
                e,
            )] is Empty) by {
                assert(self.probe(k, e) == after.probe(k, e));
                self.lemma_probe_range(k, e);
                let p = self.probe(k, e);
                assert(after.ks@[p] == self.ks@[p] || (self.ks@[p] is Empty
                    && after.ks@[p] is TombStone));
            }
        }
    }

    /// Migration steps give a table nothing to forward that had nothing.
    pub proof fn lemma_migrated_nothing(&self, after: KVs<K, V>)
        requires
            self.migrated(after),
            self.nothing_to_forward(),
        ensures
            after.nothing_to_forward(),
    {
        assert forall|i: int| 0 <= i < after.cap() implies (#[trigger] after.vs@[i]).payload() is None by {
            assert(after.ks@[i] == self.ks@[i] || (self.ks@[i] is Empty && after.ks@[i] is TombStone));
            assert(self.vs@[i].payload() is None);
        }
    }

    /// Migration steps after migration steps are migration steps.
    pub proof fn lemma_migrated_trans(&self, mid: KVs<K, V>, after: KVs<K, V>)
        requires
            self.migrated(mid),
            mid.migrated(after),
        ensures
            self.migrated(after),
    {
        assert forall|i: int| 0 <= i < self.cap() implies {
            &&& (#[trigger] after.ks@[i] == self.ks@[i] || (self.ks@[i] is Empty
                && after.ks@[i] is TombStone))
            &&& (after.vs@[i] == self.vs@[i] || after.vs@[i] == self.vs@[i].primed()
                || after.vs@[i] is TombPrime)
        } by {
            assert(mid.ks@[i] == self.ks@[i] || (self.ks@[i] is Empty && mid.ks@[i] is TombStone));
            assert(after.ks@[i] == mid.ks@[i] || (mid.ks@[i] is Empty && after.ks@[i] is TombStone));
        }
    }

    /// A table is a later state of itself.
    pub proof fn lemma_advanced_refl(&self)
        requires
            self.vs@.len() == self.cap(),
        ensures
            self.advanced(*self),
    {
    }

    /// A later state of a later state is a later state.
    pub proof fn lemma_advanced_trans(&self, mid: KVs<K, V>, after: KVs<K, V>)
        requires
            self.advanced(mid),
            mid.advanced(after),
        ensures
            self.advanced(after),
    {
        assert forall|i: int| 0 <= i < self.cap() implies slot_advances(
            self.ks@[i],
            self.vs@[i],
            #[trigger] after.ks@[i],
            after.vs@[i],
        ) by {
            assert(slot_advances(self.ks@[i], self.vs@[i], mid.ks@[i], mid.vs@[i]));
            assert(slot_advances(mid.ks@[i], mid.vs@[i], after.ks@[i], after.vs@[i]));
        }
    }

    /// A transition of one slot takes the table to a later state.
    pub proof fn lemma_step_advances(&self, after: KVs<K, V>, idx: int)
        requires
            self.steps_to(after, idx),
        ensures
            self.advanced(after),
    {
        assert forall|i: int| 0 <= i < self.cap() implies slot_advances(
            self.ks@[i],
            self.vs@[i],
            #[trigger] after.ks@[i],
            after.vs@[i],
        ) by {
            if i != idx {
                assert(after.vs@[i] == self.vs@[i]);
            } else {
                assert(!(self.ks@[i] is Present) ==> self.vs@[i] is Empty);
                assert(!(after.ks@[i] is Present) ==> after.vs@[i] is Empty);
            }
        }
    }

    /// A change of the control block that takes no credit back and forgets no successor
    /// takes the table to a later state.
    pub proof fn lemma_same_cells_advance(&self, after: KVs<K, V>)
        requires
            self.same_cells(after),
            self.vs@.len() == self.cap(),
            self.chm.newkvs is Some ==> after.chm.newkvs == self.chm.newkvs,
            after.chm.copy_done >= self.chm.copy_done,
        ensures
            self.advanced(after),
    {
    }
}

} // verus!
