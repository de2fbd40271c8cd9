//! The transitions of a table. Each is one compare-and-swap on one cell,
//! together with the bookkeeping that goes with it, and each keeps the
//! table's invariant.

use vstd::prelude::*;
use crate::count::{
    lemma_count_agree, lemma_count_bounds, lemma_count_change, lemma_count_positive,
    lemma_count_room,
};
use crate::hashing::full_hash;
use crate::slot::{Identity, Key, StableHash, Value};
use crate::table::{CHM, KVs, REPROBE_LIMIT};

verus! {

impl<K: StableHash, V: Identity> KVs<K, V> {
    /// Claims the empty key cell `idx` for `key`, which a search has reached after `d` misses.
    /// Fails, and changes nothing, if the cell is not empty.
    pub fn claim_slot(&mut self, idx: usize, key: K, fullhash: u64, Ghost(d): Ghost<int>) -> (won:
        bool)
        requires
            old(self).wf(),
            idx < old(self).cap(),
            fullhash == full_hash(key),
            0 <= d < REPROBE_LIMIT,
            old(self).probe(key, d) == idx,
            old(self).missed(key, d),
        ensures
            final(self).wf(),
            old(self).steps_to(*final(self), idx as int),
            won == (old(self).ks@[idx as int] is Empty),
            won ==> {
                &&& final(self).ks@ == old(self).ks@.update(idx as int, Key::Present(key))
                &&& final(self).hashes@ == old(self).hashes@.update(idx as int, fullhash)
                &&& final(self).vs@ == old(self).vs@
                &&& final(self).chm == (CHM { slots: (old(self).chm.slots + 1) as usize, ..old(self).chm })
                &&& final(self).debt() == old(self).debt()
                &&& !old(self).has_key(key)
            },
            !won ==> *final(self) == *old(self),
    {
        if !self.ks[idx].is_empty() {
            return false;
        }
        proof {
            self.lemma_absent_at_empty(key, d);
            lemma_count_room(self.cap(), self.is_used(), idx as int);
            assert(self.vs@[idx as int] is Empty);
        }
        let ghost before = *self;
        assert(self.chm.slots < self.ks.len());
        let slots = self.chm.slots + 1;
        self.ks[idx] = Key::Present(key);
        self.hashes[idx] = fullhash;
        self.chm.slots = slots;
        proof {
            let after = *self;
            lemma_count_change(
                before.cap(),
                before.is_used(),
                after.is_used(),
                idx as int,
            );
            lemma_count_agree(
                before.cap(),
                before.is_live(),
                after.is_live(),
            );
            lemma_count_agree(
                before.cap(),
                before.is_filled(),
                after.is_filled(),
            );
            lemma_count_agree(before.cap(), before.is_terminal(), after.is_terminal());
            before.lemma_grown(after);
            assert forall|j: int| 0 <= j < after.cap() && j != idx implies after.ks@[j]
                != Key::Present(key) by {
                if before.ks@[j] == Key::Present(key) {
                    assert(before.has_key(key));
                }
            }
            before.lemma_dist_of_probe(key, d);
            assert(after.dist(key, idx as int) == before.dist(key, idx as int));
            assert(after.reach(key, after.dist(key, idx as int))) by {
                assert forall|e: int| 0 <= e < after.dist(key, idx as int) implies !(after.ks@[
                #[trigger] after.probe(key, e)] is Empty) by {
                    assert(before.probe(key, e) == after.probe(key, e));
                    before.lemma_probe_range(key, e);
                    assert(!(before.ks@[before.probe(key, e)] is Empty));
                }
            }
        }
        true
    }

    /// Seals the empty key cell `idx`. Fails, and changes nothing, if the cell is not empty.
    pub fn seal_slot(&mut self, idx: usize) -> (won: bool)
        requires
            old(self).wf(),
            idx < old(self).cap(),
        ensures
            final(self).wf(),
            old(self).steps_to(*final(self), idx as int),
            won == (old(self).ks@[idx as int] is Empty),
            won ==> {
                &&& final(self).ks@ == old(self).ks@.update(idx as int, Key::TombStone)
                &&& final(self).hashes@ == old(self).hashes@
                &&& final(self).vs@ == old(self).vs@
                &&& final(self).chm == old(self).chm
                &&& final(self).debt() == old(self).debt() + 1
            },
            !won ==> *final(self) == *old(self),
    {
        if !self.ks[idx].is_empty() {
            return false;
        }
        let ghost before = *self;
        proof {
            assert(self.vs@[idx as int] is Empty);
        }
        self.ks[idx] = Key::TombStone;
        proof {
            let after = *self;
            lemma_count_agree(
                before.cap(),
                before.is_used(),
                after.is_used(),
            );
            lemma_count_agree(
                before.cap(),
                before.is_live(),
                after.is_live(),
            );
            lemma_count_agree(
                before.cap(),
                before.is_filled(),
                after.is_filled(),
            );
            lemma_count_change(
                before.cap(),
                before.is_terminal(),
                after.is_terminal(),
                idx as int,
            );
            before.lemma_grown(after);
        }
        true
    }

    /// Writes `putval` over the value cell `idx` if the cell still holds `expected`, and
    /// adjusts the table's size. Fails, and changes nothing, if it holds something else.
    pub fn write_value(&mut self, idx: usize, expected: &Value<V>, putval: Value<V>) -> (won: bool)
        requires
            old(self).wf(),
            idx < old(self).cap(),
            old(self).ks@[idx as int] is Present,
            !expected.is_prime(),
            putval is TombStone || putval is Present,
        ensures
            final(self).wf(),
            old(self).steps_to(*final(self), idx as int),
            won == (old(self).vs@[idx as int] == *expected),
            won ==> {
                &&& final(self).ks@ == old(self).ks@
                &&& final(self).hashes@ == old(self).hashes@
                &&& final(self).vs@ == old(self).vs@.update(idx as int, putval)
                &&& final(self).chm.newkvs == old(self).chm.newkvs
                &&& final(self).chm.slots == old(self).chm.slots
                &&& final(self).chm.copy_done == old(self).chm.copy_done
                &&& final(self).chm.copy_idx == old(self).chm.copy_idx
                &&& final(self).chm.size == old(self).chm.size + (if putval is Present {
                    1int
                } else {
                    0int
                }) - (if expected is Present {
                    1int
                } else {
                    0int
                })
                &&& final(self).debt() == old(self).debt()
            },
            !won ==> *final(self) == *old(self),
    {
        if !(self.vs[idx] == *expected) {
            return false;
        }
        let ghost before = *self;
        proof {
            lemma_count_bounds(
                self.cap(),
                self.is_filled(),
            );
            if expected is Present {
                lemma_count_positive(self.cap(), self.is_live(), idx as int);
            } else {
                lemma_count_room(
                    self.cap(),
                    self.is_filled(),
                    idx as int,
                );
            }
        }
        assert(!expected.is_live() ==> self.chm.size < self.ks.len());
        let was_live = expected.is_live();
        let is_live = putval.is_live();
        let size = if !was_live && is_live {
            self.chm.size + 1
        } else if was_live && !is_live {
            self.chm.size - 1
        } else {
            self.chm.size
        };
        self.vs[idx] = putval;
        self.chm.size = size;
        proof {
            let after = *self;
            lemma_count_agree(
                before.cap(),
                before.is_used(),
                after.is_used(),
            );
            lemma_count_change(
                before.cap(),
                before.is_live(),
                after.is_live(),
                idx as int,
            );
            lemma_count_change(
                before.cap(),
                before.is_filled(),
                after.is_filled(),
                idx as int,
            );
            lemma_count_agree(before.cap(), before.is_terminal(), after.is_terminal());
            before.lemma_grown(after);
        }
        true
    }

    /// Freezes the value cell `idx` if the cell still holds `expected`: a value becomes its
    /// primed form, and a cell without a value becomes the primed tombstone. Fails, and
    /// changes nothing, if the cell holds something else.
    pub fn freeze_value(&mut self, idx: usize, expected: &Value<V>) -> (won: bool)
        requires
            old(self).wf(),
            idx < old(self).cap(),
            old(self).ks@[idx as int] is Present,
            !expected.is_prime(),
        ensures
            final(self).wf(),
            old(self).steps_to(*final(self), idx as int),
            won == (old(self).vs@[idx as int] == *expected),
            won ==> {
                &&& final(self).ks@ == old(self).ks@
                &&& final(self).hashes@ == old(self).hashes@
                &&& final(self).vs@ == old(self).vs@.update(idx as int, expected.primed())
                &&& final(self).chm == old(self).chm
                &&& final(self).debt() == old(self).debt() + (if expected is Present {
                    0int
                } else {
                    1int
                })
            },
            !won ==> *final(self) == *old(self),
    {
        if !(self.vs[idx] == *expected) {
            return false;
        }
        let ghost before = *self;
        self.vs[idx] = expected.get_prime();
        proof {
            let after = *self;
            lemma_count_agree(
                before.cap(),
                before.is_used(),
                after.is_used(),
            );
            lemma_count_change(
                before.cap(),
                before.is_live(),
                after.is_live(),
                idx as int,
            );
            lemma_count_change(
                before.cap(),
                before.is_filled(),
                after.is_filled(),
                idx as int,
            );
            lemma_count_change(
                before.cap(),
                before.is_terminal(),
                after.is_terminal(),
                idx as int,
            );
            before.lemma_grown(after);
        }
        true
    }

    /// Marks the frozen value cell `idx` as moved out, if the cell still holds `expected`.
    /// Fails, and changes nothing, if it holds something else.
    pub fn finish_value(&mut self, idx: usize, expected: &Value<V>) -> (won: bool)
        requires
            old(self).wf(),
            idx < old(self).cap(),
            old(self).ks@[idx as int] is Present,
            *expected is Prime,
        ensures
            final(self).wf(),
            old(self).steps_to(*final(self), idx as int),
            won == (old(self).vs@[idx as int] == *expected),
            won ==> {
                &&& final(self).ks@ == old(self).ks@
                &&& final(self).hashes@ == old(self).hashes@
                &&& final(self).vs@ == old(self).vs@.update(idx as int, Value::TombPrime)
                &&& final(self).chm == old(self).chm
                &&& final(self).debt() == old(self).debt() + 1
            },
            !won ==> *final(self) == *old(self),
    {
        if !(self.vs[idx] == *expected) {
            return false;
        }
        let ghost before = *self;
        self.vs[idx] = Value::TombPrime;
        proof {
            let after = *self;
            lemma_count_agree(
                before.cap(),
                before.is_used(),
                after.is_used(),
            );
            lemma_count_agree(
                before.cap(),
                before.is_live(),
                after.is_live(),
            );
            lemma_count_agree(
                before.cap(),
                before.is_filled(),
                after.is_filled(),
            );
            lemma_count_change(
                before.cap(),
                before.is_terminal(),
                after.is_terminal(),
                idx as int,
            );
            before.lemma_grown(after);
        }
        true
    }
}

impl<K: StableHash, V: Copy> KVs<K, V> {
    /// Records a successor, if none is recorded yet. Returns the successor that the table
    /// has after the call.
    pub fn set_successor(&mut self, id: usize) -> (now: usize)
        requires
            old(self).wf(),
        ensures
            final(self).wf(),
            old(self).same_cells(*final(self)),
            final(self).chm.newkvs == Some(now),
            final(self).chm.has_newkvs,
            now == (match old(self).chm.newkvs {
                Some(there) => there,
                None => id,
            }),
            final(self).chm.size == old(self).chm.size,
            final(self).chm.slots == old(self).chm.slots,
            final(self).chm.copy_done == old(self).chm.copy_done,
            final(self).chm.copy_idx == old(self).chm.copy_idx,
            final(self).debt() == old(self).debt(),
    {
        let ghost before = *self;
        match self.chm.newkvs {
            Some(there) => there,
            None => {
                self.chm.newkvs = Some(id);
                self.chm.has_newkvs = true;
                proof {
                    before.lemma_same_cells(*self);
                }
                id
            },
        }
    }

    /// Credits `work_done` finished slots, if the count of credited slots still stands at
    /// `expected`. Fails, and changes nothing, if it stands elsewhere.
    pub fn add_copy_done(&mut self, expected: usize, work_done: usize) -> (won: bool)
        requires
            old(self).wf(),
            work_done <= old(self).debt(),
        ensures
            final(self).wf(),
            old(self).same_cells(*final(self)),
            won == (old(self).chm.copy_done == expected),
            won ==> final(self).chm == (CHM {
                copy_done: (expected + work_done) as usize,
                ..old(self).chm
            }),
            won ==> final(self).debt() == old(self).debt() - work_done,
            !won ==> *final(self) == *old(self),
    {
        let ghost before = *self;
        if self.chm.copy_done != expected {
            return false;
        }
        proof {
            self.lemma_all_terminal();
            assert(self.terminal_count() <= self.ks.len());
        }
        self.chm.copy_done = expected + work_done;
        proof {
            before.lemma_same_cells(*self);
        }
        true
    }

    /// Moves the cursor on by `chunk`, if it still stands at `expected`.
    pub fn reserve_chunk(&mut self, expected: usize, chunk: usize) -> (won: bool)
        requires
            old(self).wf(),
            expected < 2 * old(self).cap(),
            chunk <= old(self).cap(),
        ensures
            final(self).wf(),
            old(self).same_cells(*final(self)),
            won == (old(self).chm.copy_idx == expected),
            won ==> final(self).chm == (CHM {
                copy_idx: (expected + chunk) as usize,
                ..old(self).chm
            }),
            !won ==> *final(self) == *old(self),
            final(self).debt() == old(self).debt(),
    {
        let ghost before = *self;
        if self.chm.copy_idx != expected {
            return false;
        }
        self.chm.copy_idx = expected + chunk;
        proof {
            before.lemma_same_cells(*self);
        }
        true
    }

    /// Gives up the cells of a table that the root has left behind.
    pub fn release(&mut self)
        ensures
            final(self).cap() == 0,
            final(self).vs@.len() == 0,
            final(self).hashes@.len() == 0,
            final(self).chm == old(self).chm,
            forall|k: K| (#[trigger] final(self).local(k)) is None,
    {
        self.ks = Vec::new();
        self.vs = Vec::new();
        self.hashes = Vec::new();
    }
}

} // verus!
