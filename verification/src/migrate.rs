//! Migration: taking a slot to the end of its states, and the help that a
//! writer gives to a migration under way.

use vstd::prelude::*;
use crate::chain::{
    chain_slot, faded, faded_but_upto, faded_upto, fades, lemma_chain_slot_plain,
    lemma_faded_is_upto, lemma_faded_refl, lemma_faded_upto_shrink, lemma_faded_upto_trans,
    lemma_frozen_agree, lemma_frozen_chain, lemma_same_is_faded, lemma_skip, link_of, no_debt,
    same_chain, span,
};
use crate::map::NonBlockingHashMap;
use crate::slot::{Identity, Key, MatchingTypes, permits, StableHash, Value};
use crate::table::CHM;

verus! {

/// The number of slots that a helper takes on at a time, in a table of `cap` slots.
pub open spec fn chunk_of(cap: int) -> int {
    if cap < 1024 {
        cap
    } else {
        1024
    }
}

/// The table at which a walk goes on behind table `kvs`: the successor, or the root if the
/// root has moved on beyond the successor.
pub open spec fn next_table(root: usize, kvs: usize) -> int {
    if root > kvs + 1 {
        root as int
    } else {
        kvs + 1
    }
}

impl<K: StableHash, V: Identity> NonBlockingHashMap<K, V> {
    /// What a helper has done for the migration out of table `oldkvs` when it returns: the
    /// migration is finished, or the helper has reserved a chunk, and so brought the cursor
    /// nearer to where helpers stop reserving and go through the table to the end.
    pub open spec fn helped(&self, before: &Self, oldkvs: usize) -> bool {
        let was = before.tables@[oldkvs as int];
        let now = self.tables@[oldkvs as int];
        now.chm.copy_done == was.cap() || now.chm.copy_idx == was.chm.copy_idx + chunk_of(
            was.cap(),
        )
    }

    /// Where the value of slot `idx` of table `oldkvs` has landed when the slot was moved
    /// on, in the case that the successor is the last table and holds the key or has room
    /// for it: the successor is as a put of the value leaves it that writes only where
    /// nothing was ever written, and the chain is as long as it was.
    pub open spec fn forward_lands(&self, before: &Self, oldkvs: usize, idx: usize) -> bool {
        let t = before.tables@[oldkvs as int];
        let next = before.tables@[oldkvs + 1];
        let k = t.ks@[idx as int]->Present_0;
        t.ks@[idx as int] is Present && t.vs@[idx as int].payload() is Some && oldkvs + 2
            == before.tables@.len() && next.fits(k) ==> {
            &&& self.tables@.len() == before.tables@.len()
            &&& next.after_put(
                self.tables@[oldkvs + 1],
                k,
                Value::Present(t.vs@[idx as int].payload()->Some_0),
                permits(MatchingTypes::FromCopySlot, None, next.held(k)),
            )
        }
    }

    /// The work that has gone into the migration out of table `j`: the slots that are
    /// credited as finished, and the slots that helpers have reserved.
    pub open spec fn migration_work(&self, j: usize) -> int {
        self.tables@[j as int].chm.copy_done + self.tables@[j as int].chm.copy_idx
    }

    /// What a helper that takes one chunk has done for the migration out of table `oldkvs`
    /// when the cursor had not yet gone round twice: the cursor has moved on by a chunk,
    /// and every slot of the chunk that it left behind is at the end of its migration.
    pub open spec fn chunk_done(&self, before: &Self, oldkvs: usize) -> bool {
        let was = before.tables@[oldkvs as int];
        let now = self.tables@[oldkvs as int];
        let c = was.chm.copy_idx as int;
        &&& now.chm.copy_idx == c + chunk_of(was.cap())
        &&& self.has_table(oldkvs) ==> forall|x: int|
            c <= x < c + chunk_of(was.cap()) ==> now.terminal(#[trigger] (x % was.cap()))
    }

    /// Migrates slot `idx` of table `oldkvs`, credits the slot if this call finished it,
    /// and helps with a chunk of the migration if asked to. Returns the successor table, or
    /// the root if the root has meanwhile moved on beyond the successor.
    pub fn copy_slot_and_check(&mut self, oldkvs: usize, idx: usize, should_help: bool) -> (newkvs:
        usize)
        requires
            old(self).inv(),
            old(self).has_table(oldkvs),
            oldkvs + 1 < old(self).tables@.len(),
            idx < old(self).tables@[oldkvs as int].cap(),
            should_help ==> oldkvs == old(self).kvs && no_debt(
                old(self).tables@,
                old(self).kvs as int,
            ),
        ensures
            final(self).inv(),
            newkvs == next_table(final(self).kvs, oldkvs),
            final(self).has_table(newkvs),
            final(self)@ == old(self)@,
            final(self).advanced_from(old(self)),
            final(self).kvs >= old(self).kvs,
            final(self).tables@.len() >= old(self).tables@.len(),
            faded_upto(old(self).tables@, final(self).tables@, oldkvs as int),
            final(self).has_table(oldkvs) ==> {
                &&& final(self).tables@[oldkvs as int].cap() == old(self).tables@[oldkvs as int].cap()
                &&& final(self).tables@[oldkvs as int].terminal(idx as int)
                &&& old(self).tables@[oldkvs as int].ks@[idx as int] is Present ==> {
                    &&& final(self).tables@[oldkvs as int].ks@[idx as int] == old(self).tables@[oldkvs as int].ks@[idx as int]
                    &&& final(self).tables@[oldkvs as int].vs@[idx as int] is TombPrime
                }
            },
            no_debt(old(self).tables@, old(self).kvs as int) ==> no_debt(
                final(self).tables@,
                final(self).kvs as int,
            ),
            !should_help ==> {
                &&& final(self).kvs == old(self).kvs + if !old(self).tables@[oldkvs as int].terminal(
                    idx as int,
                ) && old(self).promotes(oldkvs, 1) {
                    1int
                } else {
                    0int
                }
                &&& final(self).has_table(oldkvs) ==> forall|i: int|
                    0 <= i < old(self).tables@[oldkvs as int].cap() && i != idx ==> {
                        &&& #[trigger] final(self).tables@[oldkvs as int].ks@[i] == old(self).tables@[oldkvs as int].ks@[i]
                        &&& final(self).tables@[oldkvs as int].vs@[i] == old(self).tables@[oldkvs as int].vs@[i]
                    }
                &&& old(self).tables@[oldkvs as int].vs@[idx as int].payload() is None
                    ==> final(self).others_kept(old(self), oldkvs)
                &&& final(self).forward_lands(old(self), oldkvs, idx)
                &&& final(self).walked(old(self), oldkvs, 0)
                &&& old(self).tables@[oldkvs as int].ks@[idx as int] is Present ==> final(self).touched_only(
                    old(self),
                    old(self).tables@[oldkvs as int].ks@[idx as int]->Present_0,
                )
                &&& old(self).tables@[oldkvs as int].ks@[idx as int] is Present ==> span(
                    final(self).tables@,
                    old(self).tables@[oldkvs as int].ks@[idx as int]->Present_0,
                ) == span(
                    old(self).tables@,
                    old(self).tables@[oldkvs as int].ks@[idx as int]->Present_0,
                )
            },
        decreases
                (if should_help {
                    1int
                } else {
                    0int
                }),
                (if should_help {
                    2int
                } else if old(self).tables@[oldkvs as int].ks@[idx as int] is Present {
                    span(
                        old(self).tables@,
                        old(self).tables@[oldkvs as int].ks@[idx as int]->Present_0,
                    ) - oldkvs
                } else {
                    0int
                }),
                1int,
    {
        let ghost s0 = *self;
        let done = self.copy_slot(idx, oldkvs);
        let ghost sc = *self;
        if done {
            self.copy_check_and_promote(oldkvs, 1);
        }
        let ghost s1 = *self;
        proof {
            let key = s0.tables@[oldkvs as int].ks@[idx as int];
            if done {
                s0.lemma_advanced_trans(&sc, &s1);
                if key is Present {
                    s0.lemma_touched_trans(&sc, &s1, key->Present_0);
                }
            }
            lemma_same_is_faded(sc.tables@, s1.tables@);
            lemma_faded_is_upto(sc.tables@, s1.tables@, oldkvs as int);
            lemma_faded_upto_trans(s0.tables@, sc.tables@, s1.tables@, oldkvs as int);
            if s1.has_table(oldkvs) {
                sc.tables@[oldkvs as int].lemma_same_cells(s1.tables@[oldkvs as int]);
                assert(s1.tables@[oldkvs as int].terminal(idx as int));
            }
            let key = s0.tables@[oldkvs as int].ks@[idx as int];
            if key is Present {
                s1.lemma_same_last(&sc, key->Present_0);
            }
        }
        if should_help {
            self.help_copy();
            proof {
                let s2 = *self;
                if s2.has_table(oldkvs) {
                    assert(s1.has_table(oldkvs));
                    assert(s1.tables@[oldkvs as int].wf());
                    assert(s2.tables@[oldkvs as int].wf());
                    assert(s1.tables@[oldkvs as int].migrated(s2.tables@[oldkvs as int]));
                }
                lemma_faded_upto_shrink(s1.tables@, s2.tables@, s1.kvs as int, oldkvs as int);
                lemma_faded_upto_trans(s0.tables@, s1.tables@, s2.tables@, oldkvs as int);
                s0.lemma_advanced_trans(&s1, &s2);
            }
        }
        proof {
            assert(self.tables@[oldkvs as int].chm.newkvs == link_of(
                self.tables@.len() as int,
                oldkvs as int,
            ));
        }
        proof {
            lemma_faded_upto_shrink(s0.tables@, self.tables@, oldkvs as int, s0.kvs as int);
            self.lemma_view_kept(&s0);
        }
        let newkvs = self.tables[oldkvs].chm.get_newkvs_nonatomic().unwrap();
        if newkvs < self.kvs {
            self.kvs
        } else {
            newkvs
        }
    }

    /// Takes slot `idx` of table `oldkvs` to the end of its migration: seals it if it is
    /// empty, and else freezes its value, forwards a live value to the successor table, and
    /// marks the slot as moved out. Returns whether this call made the last step.
    #[verifier::loop_isolation(false)]
    pub fn copy_slot(&mut self, idx: usize, oldkvs: usize) -> (done: bool)
        requires
            old(self).inv(),
            old(self).has_table(oldkvs),
            oldkvs + 1 < old(self).tables@.len(),
            idx < old(self).tables@[oldkvs as int].cap(),
        ensures
            final(self).inv(),
            done == !old(self).tables@[oldkvs as int].terminal(idx as int),
            old(self).tables@[oldkvs as int].vs@[idx as int].payload() is None
                ==> final(self).others_kept(old(self), oldkvs),
            final(self).forward_lands(old(self), oldkvs, idx),
            final(self).tables@[oldkvs as int].hashes@ == old(self).tables@[oldkvs as int].hashes@,
            final(self)@ == old(self)@,
            final(self).advanced_from(old(self)),
            final(self).kvs == old(self).kvs,
            faded_upto(old(self).tables@, final(self).tables@, oldkvs as int),
            final(self).walked(old(self), oldkvs, if done { 1 } else { 0 }),
            final(self).tables@[oldkvs as int].chm == old(self).tables@[oldkvs as int].chm,
            old(self).tables@[oldkvs as int].migrated(final(self).tables@[oldkvs as int]),
            forall|i: int|
                0 <= i < old(self).tables@[oldkvs as int].cap() && i != idx ==> {
                    &&& #[trigger] final(self).tables@[oldkvs as int].ks@[i] == old(self).tables@[oldkvs as int].ks@[i]
                    &&& final(self).tables@[oldkvs as int].vs@[i] == old(self).tables@[oldkvs as int].vs@[i]
                },
            final(self).tables@[oldkvs as int].terminal(idx as int),
            old(self).tables@[oldkvs as int].ks@[idx as int] is Present ==> {
                &&& final(self).tables@[oldkvs as int].ks@[idx as int] == old(self).tables@[oldkvs as int].ks@[idx as int]
                &&& final(self).tables@[oldkvs as int].vs@[idx as int] is TombPrime
                &&& final(self).touched_only(
                    old(self),
                    old(self).tables@[oldkvs as int].ks@[idx as int]->Present_0,
                )
                &&& span(
                    final(self).tables@,
                    old(self).tables@[oldkvs as int].ks@[idx as int]->Present_0,
                ) == span(
                    old(self).tables@,
                    old(self).tables@[oldkvs as int].ks@[idx as int]->Present_0,
                )
            },
        decreases
                0int,
                (if old(self).tables@[oldkvs as int].ks@[idx as int] is Present {
                    span(
                        old(self).tables@,
                        old(self).tables@[oldkvs as int].ks@[idx as int]->Present_0,
                    ) - oldkvs
                } else {
                    0int
                }),
                0int,
    {
        let ghost s0 = *self;
        let mut key = *self.tables[oldkvs].get_key_nonatomic_at(idx);
        proof {
            assert(s0.tables@[oldkvs as int].wf());
            s0.lemma_advanced_refl();
            lemma_faded_refl(s0.tables@);
            lemma_faded_is_upto(s0.tables@, s0.tables@, oldkvs as int);
        }
        while key.is_empty()
            invariant
                self.same_state(&s0),
                !key.is_empty() ==> key == s0.tables@[oldkvs as int].ks@[idx as int],
            decreases
                    (if key is Empty {
                        1int
                    } else {
                        0int
                    }),
        {
            if self.seal(oldkvs, idx) {
                proof {
                    lemma_same_is_faded(s0.tables@, self.tables@);
                    lemma_faded_is_upto(s0.tables@, self.tables@, oldkvs as int);
                }
                proof {
                    self.lemma_entries_kept(&s0, oldkvs);
                }
                return true;
            }
            key = *self.tables[oldkvs].get_key_nonatomic_at(idx);
        }
        if key.is_tombstone() {
            proof {
                self.lemma_entries_kept(&s0, oldkvs);
            }
            return false;
        }
        let ghost k = key->Present_0;
        proof {
            s0.lemma_touched_refl(k);
        }
        let mut oldvalue = *self.tables[oldkvs].get_value_nonatomic_at(idx);
        while !oldvalue.is_prime()
            invariant
                self.inv(),
                self.kvs == s0.kvs,
                self.has_table(oldkvs),
                self.tables@.len() == s0.tables@.len(),
                !(oldvalue is Prime) ==> self.same_state(&s0),
                oldvalue is Prime ==> s0.tables@[oldkvs as int].vs@[idx as int].payload() == Some(
                    oldvalue->Prime_0,
                ),
                self.others_kept(&s0, oldkvs),
                self.tables@[oldkvs as int].hashes@ == s0.tables@[oldkvs as int].hashes@,
                s0.tables@[oldkvs as int].vs@[idx as int].payload() is None ==> self.others_kept(
                    &s0,
                    oldkvs,
                ),
                oldvalue.is_prime() ==> self.tables@[oldkvs as int].vs@[idx as int] == oldvalue,
                self.tables@[oldkvs as int].ks@[idx as int] == Key::Present(k),
                self.tables@[oldkvs as int].chm == s0.tables@[oldkvs as int].chm,
                self.advanced_from(&s0),
                self.touched_only(&s0, k),
                faded(s0.tables@, self.tables@),
                self.walked(&s0, oldkvs, 0),
                span(self.tables@, k) == span(s0.tables@, k),
                s0.tables@[oldkvs as int].migrated(self.tables@[oldkvs as int]),
                forall|i: int|
                    0 <= i < s0.tables@[oldkvs as int].cap() && i != idx ==> {
                        &&& #[trigger] self.tables@[oldkvs as int].ks@[i]
                            == s0.tables@[oldkvs as int].ks@[i]
                        &&& self.tables@[oldkvs as int].vs@[i] == s0.tables@[oldkvs as int].vs@[i]
                    },
            decreases
                    (if oldvalue.is_prime() {
                        0int
                    } else if self.tables@[oldkvs as int].vs@[idx as int] == oldvalue {
                        1int
                    } else {
                        2int
                    }),
        {
            if self.freeze(oldkvs, idx, &oldvalue) {
                if !oldvalue.is_live() {
                    proof {
                        lemma_faded_is_upto(s0.tables@, self.tables@, oldkvs as int);
                        self.lemma_entries_kept(&s0, oldkvs);
                    }
                    return true;
                }
                oldvalue = oldvalue.get_prime();
            } else {
                oldvalue = *self.tables[oldkvs].get_value_nonatomic_at(idx);
            }
        }
        let ghost s1 = *self;
        proof {
            assert(s1.tables@[oldkvs as int].wf());
            lemma_faded_is_upto(s0.tables@, s1.tables@, oldkvs as int);
        }
        if oldvalue.is_tombprime() {
            proof {
                self.lemma_entries_kept(&s0, oldkvs);
            }
            return false;
        }
        let old_unprimed = oldvalue.get_unprime();
        let newkvs = self.tables[oldkvs].chm.get_newkvs_nonatomic();
        proof {
            assert(s1.tables@[oldkvs as int].chm.newkvs == link_of(
                s1.tables@.len() as int,
                oldkvs as int,
            ));
            lemma_frozen_agree(s1.tables@, s1.kvs as int, oldkvs as int, idx as int);
            lemma_chain_slot_plain(s1.tables@, oldkvs + 1, k);
        }
        self.put_if_match_impl(
            newkvs.unwrap(),
            key,
            old_unprimed,
            MatchingTypes::FromCopySlot,
            None,
            false,
        );
        let ghost s2 = *self;
        proof {
            lemma_chain_slot_plain(s2.tables@, oldkvs + 1, k);
            assert(chain_slot(s2.tables@, oldkvs + 1, k) == old_unprimed);
            assert(s2.tables@[oldkvs as int] == s1.tables@[oldkvs as int]);
            s1.lemma_forwarded(&s2, oldkvs, idx, k);
            lemma_faded_upto_trans(s0.tables@, s1.tables@, s2.tables@, oldkvs as int);
            s0.lemma_advanced_trans(&s1, &s2);
            s0.lemma_touched_trans(&s1, &s2, k);
        }
        oldvalue = *self.tables[oldkvs].get_value_nonatomic_at(idx);
        while !oldvalue.is_tombprime()
            invariant
                self.same_state(&s2),
                oldvalue == s2.tables@[oldkvs as int].vs@[idx as int],
            decreases 1int,
        {
            if self.finish(oldkvs, idx, &oldvalue) {
                proof {
                    lemma_same_is_faded(s2.tables@, self.tables@);
                    lemma_faded_is_upto(s2.tables@, self.tables@, oldkvs as int);
                    lemma_faded_upto_trans(s0.tables@, s2.tables@, self.tables@, oldkvs as int);
                    s0.lemma_advanced_trans(&s2, self);
                    s0.lemma_touched_trans(&s2, self, k);
                    assert(s0.tables@[oldkvs as int].migrated(self.tables@[oldkvs as int]));
                }
                proof {
                    self.lemma_entries_kept(&s0, oldkvs);
                }
                return true;
            }
            oldvalue = *self.tables[oldkvs].get_value_nonatomic_at(idx);
        }
        proof {
            self.lemma_entries_kept(&s0, oldkvs);
        }
        false
    }

    /// Helps with the migration out of the root table, if one is under way.
    pub fn help_copy(&mut self)
        requires
            old(self).wf(),
        ensures
            final(self).wf(),
            final(self)@ == old(self)@,
            final(self).advanced_from(old(self)),
            faded_upto(old(self).tables@, final(self).tables@, old(self).kvs as int),
            old(self).tables@[old(self).kvs as int].chm.newkvs is None ==> final(self).same_state(
                old(self),
            ),
            old(self).tables@[old(self).kvs as int].chm.newkvs is Some ==> {
                &&& final(self).helped(old(self), old(self).kvs)
                &&& old(self).tables@[old(self).kvs as int].chm.copy_done < old(self).tables@[old(self).kvs as int].cap()
                    ==> final(self).migration_work(old(self).kvs) > old(self).migration_work(
                    old(self).kvs,
                )
                &&& old(self).tables@[old(self).kvs as int].chm.copy_done < old(self).tables@[old(self).kvs as int].cap() && old(self).tables@[old(self).kvs as int].chm.copy_idx < 2 * old(self).tables@[old(self).kvs as int].cap()
                    ==> final(self).chunk_done(old(self), old(self).kvs)
                &&& old(self).tables@[old(self).kvs as int].nothing_to_forward() ==> final(self).others_kept(old(self), old(self).kvs)
            },
            old(self).kvs <= final(self).kvs <= old(self).kvs + 1,
            final(self).tables@.len() >= old(self).tables@.len(),
            final(self).has_table(old(self).kvs) ==> old(self).tables@[old(self).kvs as int].migrated(
                final(self).tables@[old(self).kvs as int],
            ),
        decreases 1int, 1int, 0int,
    {
        let kvs = self.get_table_nonatomic();
        proof {
            assert(self.tables@[kvs as int].chm.newkvs == link_of(
                self.tables@.len() as int,
                kvs as int,
            ));
            assert(self.tables@[kvs as int].wf());
            self.lemma_advanced_refl();
            lemma_faded_refl(self.tables@);
            lemma_faded_is_upto(self.tables@, self.tables@, kvs as int);
        }
        if self.tables[kvs].chm.has_newkvs() {
            self.help_copy_impl(kvs, false);
        }
        proof {
            self.lemma_view_kept(old(self));
        }
    }

    /// Migrates slots of table `oldkvs`, a chunk at a time: one chunk, or with `copy_all`
    /// all of them. A helper reserves its chunk by moving the table's cursor on. Once the
    /// cursor has gone round the table twice, a helper no longer reserves: it goes round
    /// the table by itself until every slot is migrated.
    #[verifier::loop_isolation(false)]
    pub fn help_copy_impl(&mut self, oldkvs: usize, copy_all: bool)
        requires
            old(self).wf(),
            old(self).has_table(oldkvs),
            oldkvs + 1 < old(self).tables@.len(),
        ensures
            final(self).wf(),
            final(self)@ == old(self)@,
            final(self).advanced_from(old(self)),
            faded_upto(old(self).tables@, final(self).tables@, oldkvs as int),
            old(self).kvs <= final(self).kvs <= old(self).kvs + 1,
            final(self).kvs > old(self).kvs ==> old(self).kvs == oldkvs,
            final(self).tables@.len() >= old(self).tables@.len(),
            final(self).has_table(oldkvs) ==> old(self).tables@[oldkvs as int].migrated(
                final(self).tables@[oldkvs as int],
            ),
            copy_all ==> final(self).tables@[oldkvs as int].chm.copy_done == old(self).tables@[oldkvs as int].cap(),
            final(self).helped(old(self), oldkvs),
            old(self).tables@[oldkvs as int].chm.copy_done < old(self).tables@[oldkvs as int].cap()
                ==> final(self).migration_work(oldkvs) > old(self).migration_work(oldkvs),
            !copy_all && old(self).tables@[oldkvs as int].chm.copy_done < old(self).tables@[oldkvs as int].cap() && old(self).tables@[oldkvs as int].chm.copy_idx < 2
                * old(self).tables@[oldkvs as int].cap() ==> final(self).chunk_done(
                old(self),
                oldkvs,
            ),
            final(self).has_table(oldkvs) && final(self).tables@[oldkvs as int].chm.copy_done
                == old(self).tables@[oldkvs as int].cap() ==> final(self).tables@[oldkvs as int].all_terminal(),
            old(self).tables@[oldkvs as int].nothing_to_forward() ==> final(self).others_kept(
                old(self),
                oldkvs,
            ),
            final(self).tables@[oldkvs as int].chm.copy_done == old(self).tables@[oldkvs as int].cap()
                && old(self).kvs == oldkvs ==> final(self).kvs == oldkvs + 1,
        decreases 1int, 0int, 1int,
    {
        let ghost s0 = *self;
        let oldlen = self.tables[oldkvs].len();
        let min_copy_work = if oldlen < 1024 {
            oldlen
        } else {
            1024
        };
        let mut panic_start = false;
        let mut copy_idx: usize = 0;
        let ghost mut start: int = 0;
        proof {
            assert(s0.tables@[oldkvs as int].wf());
            lemma_faded_refl(s0.tables@);
            lemma_faded_is_upto(s0.tables@, s0.tables@, oldkvs as int);
            s0.tables@[oldkvs as int].lemma_all_terminal();
            s0.lemma_advanced_refl();
        }
        while self.tables[oldkvs].chm.copy_done < oldlen
            invariant
                self.wf(),
                self.advanced_from(&s0),
                s0.kvs <= self.kvs <= s0.kvs + 1,
                self.kvs > s0.kvs ==> s0.kvs == oldkvs,
                self.tables@.len() >= s0.tables@.len(),
                faded_upto(s0.tables@, self.tables@, oldkvs as int),
                self.has_table(oldkvs) ==> {
                    &&& s0.tables@[oldkvs as int].migrated(self.tables@[oldkvs as int])
                    &&& self.tables@[oldkvs as int].cap() == oldlen
                },
                !self.has_table(oldkvs) ==> self.tables@[oldkvs as int].chm.copy_done == oldlen,
                self.tables@[oldkvs as int].chm.copy_done <= oldlen,
                self.tables@[oldkvs as int].chm.copy_idx <= 3 * oldlen,
                copy_all || panic_start || self.same_state(&s0),
                self.tables@[oldkvs as int].chm.copy_idx >= s0.tables@[oldkvs as int].chm.copy_idx,
                self.tables@[oldkvs as int].chm.copy_done >= s0.tables@[oldkvs as int].chm.copy_done,
                !copy_all && s0.tables@[oldkvs as int].chm.copy_idx < 2 * oldlen ==> !panic_start,
                s0.tables@[oldkvs as int].nothing_to_forward() ==> self.others_kept(&s0, oldkvs),
                panic_start ==> {
                    &&& 0 <= start <= copy_idx
                    &&& start <= 3 * oldlen
                    &&& copy_idx - start < 2 * oldlen
                    &&& self.has_table(oldkvs) ==> forall|x: int|
                        start <= x < copy_idx ==> self.tables@[oldkvs as int].terminal(
                            #[trigger] (x % (oldlen as int)),
                        )
                },
            decreases
                    (if panic_start {
                        0int
                    } else {
                        1int
                    }),
                    (if panic_start {
                        2 * oldlen + start - copy_idx
                    } else {
                        3 * oldlen + 1 - self.tables@[oldkvs as int].chm.copy_idx
                    }),
        {
            let ghost s1 = *self;
            proof {
                assert(s1.has_table(oldkvs));
                assert(s1.tables@[oldkvs as int].wf());
                s1.tables@[oldkvs as int].lemma_all_terminal();
                if panic_start {
                    assert(copy_idx - start < oldlen) by {
                        if copy_idx - start >= oldlen {
                            s1.tables@[oldkvs as int].lemma_round(start, copy_idx as int);
                            assert(s1.tables@[oldkvs as int].debt() == 0);
                        }
                    }
                }
            }
            if !panic_start {
                copy_idx = self.next_chunk(oldkvs, min_copy_work);
                if copy_idx >= oldlen * 2 {
                    panic_start = true;
                    proof {
                        start = copy_idx as int;
                    }
                }
                proof {
                    s0.lemma_advanced_trans(&s1, self);
                    lemma_faded_upto_trans(s0.tables@, s1.tables@, self.tables@, oldkvs as int);
                    s0.tables@[oldkvs as int].lemma_migrated_trans(
                        s1.tables@[oldkvs as int],
                        self.tables@[oldkvs as int],
                    );
                }
            }
            let ghost s2 = *self;
            proof {
                if s0.tables@[oldkvs as int].nothing_to_forward() {
                    s0.tables@[oldkvs as int].lemma_migrated_nothing(s2.tables@[oldkvs as int]);
                }
            }
            let work_done = self.copy_chunk(oldkvs, copy_idx, min_copy_work);
            let ghost s4 = *self;
            proof {
                s0.lemma_advanced_trans(&s2, &s4);
                lemma_faded_upto_trans(s0.tables@, s2.tables@, s4.tables@, oldkvs as int);
                s0.tables@[oldkvs as int].lemma_migrated_trans(
                    s2.tables@[oldkvs as int],
                    s4.tables@[oldkvs as int],
                );
            }
            if work_done > 0 {
                self.copy_check_and_promote(oldkvs, work_done);
            }
            proof {
                if work_done > 0 {
                    s0.lemma_advanced_trans(&s4, self);
                }
                lemma_same_is_faded(s4.tables@, self.tables@);
                lemma_faded_is_upto(s4.tables@, self.tables@, oldkvs as int);
                lemma_faded_upto_trans(s0.tables@, s4.tables@, self.tables@, oldkvs as int);
                if self.has_table(oldkvs) {
                    s4.tables@[oldkvs as int].lemma_same_cells(self.tables@[oldkvs as int]);
                    assert(s0.tables@[oldkvs as int].migrated(self.tables@[oldkvs as int]));
                    assert(self.tables@[oldkvs as int].wf());
                    self.tables@[oldkvs as int].lemma_all_terminal();
                    assert forall|x: int|
                        (if panic_start {
                            start
                        } else {
                            copy_idx as int
                        }) <= x < copy_idx + min_copy_work implies self.tables@[oldkvs as int].terminal(
                        #[trigger] (x % (oldlen as int)),
                    ) by {
                        if x < copy_idx {
                            assert(s2.tables@[oldkvs as int].terminal(x % (oldlen as int)));
                        }
                        assert(s4.tables@[oldkvs as int].terminal(x % (oldlen as int)));
                    }
                }
                assert(no_debt(self.tables@, self.kvs as int));
            }
            copy_idx += min_copy_work;
            if !copy_all && !panic_start {
                proof {
                    lemma_faded_upto_shrink(s0.tables@, self.tables@, oldkvs as int, s0.kvs as int);
                    self.lemma_view_kept(&s0);
                }
                return ;
            }
        }
        let ghost s5 = *self;
        self.copy_check_and_promote(oldkvs, 0);
        proof {
            s0.lemma_advanced_trans(&s5, self);
            lemma_same_is_faded(s5.tables@, self.tables@);
            lemma_faded_is_upto(s5.tables@, self.tables@, oldkvs as int);
            lemma_faded_upto_trans(s0.tables@, s5.tables@, self.tables@, oldkvs as int);
            if self.has_table(oldkvs) {
                s5.tables@[oldkvs as int].lemma_same_cells(self.tables@[oldkvs as int]);
                assert(s0.tables@[oldkvs as int].migrated(self.tables@[oldkvs as int]));
            }
            assert(no_debt(self.tables@, self.kvs as int));
            lemma_faded_upto_shrink(s0.tables@, self.tables@, oldkvs as int, s0.kvs as int);
            self.lemma_view_kept(&s0);
            if self.has_table(oldkvs) {
                assert(self.tables@[oldkvs as int].wf());
                self.tables@[oldkvs as int].lemma_all_terminal();
            }
        }
    }

    /// Reads the cursor of table `oldkvs` and reserves the chunk that starts there, unless
    /// the cursor has gone round the table twice. Returns where the cursor stood.
    #[verifier::loop_isolation(false)]
    pub fn next_chunk(&mut self, oldkvs: usize, min_copy_work: usize) -> (copy_idx: usize)
        requires
            old(self).inv(),
            old(self).has_table(oldkvs),
            min_copy_work == chunk_of(old(self).tables@[oldkvs as int].cap()),
        ensures
            final(self).inv(),
            final(self).advanced_from(old(self)),
            same_chain(old(self).tables@, final(self).tables@),
            final(self).kvs == old(self).kvs,
            copy_idx == old(self).tables@[oldkvs as int].chm.copy_idx,
            final(self).tables@ == old(self).tables@.update(
                oldkvs as int,
                final(self).tables@[oldkvs as int],
            ),
            old(self).tables@[oldkvs as int].same_cells(final(self).tables@[oldkvs as int]),
            final(self).tables@[oldkvs as int].debt() == old(self).tables@[oldkvs as int].debt(),
            final(self).tables@[oldkvs as int].chm == (CHM {
                copy_idx: (if copy_idx < 2 * old(self).tables@[oldkvs as int].cap() {
                    copy_idx + min_copy_work
                } else {
                    copy_idx as int
                }) as usize,
                ..old(self).tables@[oldkvs as int].chm
            }),
    {
        let ghost s1 = *self;
        let oldlen = self.tables[oldkvs].len();
        proof {
            assert(s1.tables@[oldkvs as int].wf());
            lemma_faded_refl(s1.tables@);
            s1.lemma_advanced_refl();
            assert(s1.tables@ =~= s1.tables@.update(oldkvs as int, s1.tables@[oldkvs as int]));
        }
        let mut copy_idx = self.tables[oldkvs].chm.copy_idx;
        let mut reserved = false;
        while copy_idx < oldlen * 2 && !reserved
            invariant
                self.inv(),
                self.advanced_from(&s1),
                self.kvs == s1.kvs,
                !reserved ==> self.same_state(&s1),
                copy_idx == s1.tables@[oldkvs as int].chm.copy_idx,
                reserved ==> copy_idx < oldlen * 2 && self.tables@[oldkvs as int].chm == (
                CHM {
                    copy_idx: (copy_idx + min_copy_work) as usize,
                    ..s1.tables@[oldkvs as int].chm
                }),
                same_chain(s1.tables@, self.tables@),
                self.tables@ == s1.tables@.update(oldkvs as int, self.tables@[oldkvs as int]),
                s1.tables@[oldkvs as int].same_cells(self.tables@[oldkvs as int]),
                self.tables@[oldkvs as int].debt() == s1.tables@[oldkvs as int].debt(),
            decreases
                    (if reserved {
                        0int
                    } else if self.tables@[oldkvs as int].chm.copy_idx == copy_idx {
                        1int
                    } else {
                        2int
                    }),
        {
            reserved = self.reserve(oldkvs, copy_idx, min_copy_work);
            if !reserved {
                copy_idx = self.tables[oldkvs].chm.copy_idx;
            }
        }
        copy_idx
    }

    /// Migrates the `min_copy_work` slots of table `oldkvs` that follow the cursor position
    /// `copy_idx`, round the end of the table. Returns how many of them this call
    /// finished: that many slots the table now owes in credit.
    #[verifier::loop_isolation(false)]
    pub fn copy_chunk(&mut self, oldkvs: usize, copy_idx: usize, min_copy_work: usize) -> (work_done:
        usize)
        requires
            old(self).inv(),
            no_debt(old(self).tables@, old(self).kvs as int),
            old(self).has_table(oldkvs),
            oldkvs + 1 < old(self).tables@.len(),
            min_copy_work <= old(self).tables@[oldkvs as int].cap(),
            copy_idx <= 4 * old(self).tables@[oldkvs as int].cap(),
        ensures
            final(self).inv(),
            final(self)@ == old(self)@,
            final(self).advanced_from(old(self)),
            final(self).kvs == old(self).kvs,
            final(self).tables@.len() >= old(self).tables@.len(),
            faded_upto(old(self).tables@, final(self).tables@, oldkvs as int),
            old(self).tables@[oldkvs as int].migrated(final(self).tables@[oldkvs as int]),
            old(self).tables@[oldkvs as int].nothing_to_forward() ==> final(self).others_kept(
                old(self),
                oldkvs,
            ),
            final(self).tables@[oldkvs as int].chm == old(self).tables@[oldkvs as int].chm,
            work_done <= min_copy_work,
            forall|t: int|
                final(self).kvs <= t < final(self).tables@.len() ==> (
                #[trigger] final(self).tables@[t]).debt() == if t == oldkvs {
                    work_done as int
                } else {
                    0
                },
            forall|x: int|
                copy_idx <= x < copy_idx + min_copy_work ==> final(self).tables@[oldkvs as int].terminal(
                    #[trigger] (x % old(self).tables@[oldkvs as int].cap()),
                ),
            forall|i: int|
                0 <= i < old(self).tables@[oldkvs as int].cap() && old(self).tables@[oldkvs as int].terminal(i)
                    ==> #[trigger] final(self).tables@[oldkvs as int].terminal(i),
        decreases 1int, 0int, 0int,
    {
        let ghost s2 = *self;
        let oldlen = self.tables[oldkvs].len();
        let mut work_done: usize = 0;
        let mut i: usize = 0;
        proof {
            assert(s2.tables@[oldkvs as int].wf());
            s2.lemma_advanced_refl();
            lemma_faded_refl(s2.tables@);
            lemma_faded_is_upto(s2.tables@, s2.tables@, oldkvs as int);
        }
        while i < min_copy_work
            invariant
                self.inv(),
                self.advanced_from(&s2),
                self.kvs == s2.kvs,
                self.has_table(oldkvs),
                oldkvs + 1 < self.tables@.len(),
                self.tables@.len() >= s2.tables@.len(),
                self.tables@[oldkvs as int].cap() == oldlen,
                self.tables@[oldkvs as int].chm == s2.tables@[oldkvs as int].chm,
                i <= min_copy_work,
                work_done <= i,
                forall|t: int|
                    self.kvs <= t < self.tables@.len() ==> (#[trigger] self.tables@[t]).debt()
                        == if t == oldkvs {
                        work_done as int
                    } else {
                        0
                    },
                faded_upto(s2.tables@, self.tables@, oldkvs as int),
                s2.tables@[oldkvs as int].migrated(self.tables@[oldkvs as int]),
                s2.tables@[oldkvs as int].nothing_to_forward() ==> self.others_kept(&s2, oldkvs),
                forall|x: int|
                    copy_idx <= x < copy_idx + i ==> self.tables@[oldkvs as int].terminal(
                        #[trigger] (x % (oldlen as int)),
                    ),
                forall|y: int|
                    0 <= y < oldlen && s2.tables@[oldkvs as int].terminal(y) ==> #[trigger] self.tables@[oldkvs as int].terminal(
                        y,
                    ),
            decreases min_copy_work - i,
        {
            let ghost s3 = *self;
            let slot = (copy_idx + i) % oldlen;
            proof {
                if s2.tables@[oldkvs as int].nothing_to_forward() {
                    s2.tables@[oldkvs as int].lemma_migrated_nothing(s3.tables@[oldkvs as int]);
                    assert(s3.tables@[oldkvs as int].vs@[slot as int].payload() is None);
                }
            }
            if self.copy_slot(slot, oldkvs) {
                work_done += 1;
            }
            proof {
                s2.lemma_advanced_trans(&s3, self);
                lemma_faded_upto_trans(s2.tables@, s3.tables@, self.tables@, oldkvs as int);
                s2.tables@[oldkvs as int].lemma_migrated_trans(
                    s3.tables@[oldkvs as int],
                    self.tables@[oldkvs as int],
                );
                assert forall|y: int|
                    0 <= y < oldlen && s3.tables@[oldkvs as int].terminal(y) implies #[trigger] self.tables@[oldkvs as int].terminal(
                    y,
                ) by {
                    if y != slot {
                        assert(self.tables@[oldkvs as int].ks@[y] == s3.tables@[oldkvs as int].ks@[y]);
                    }
                }
                assert forall|x: int|
                    copy_idx <= x < copy_idx + i + 1 implies self.tables@[oldkvs as int].terminal(
                    #[trigger] (x % (oldlen as int)),
                ) by {
                    let y = x % (oldlen as int);
                    if y != slot {
                        assert(s3.tables@[oldkvs as int].terminal(y));
                    }
                }
            }
            i += 1;
        }
        proof {
            self.lemma_entries_kept(&s2, oldkvs);
        }
        work_done
    }

    /// A step that leaves the last table alone leaves alone whether a walk for `k` may end
    /// there.
    proof fn lemma_same_last(&self, before: &Self, k: K)
        requires
            self.tables@.len() == before.tables@.len(),
            before.tables@.len() > 0,
            self.tables@[self.tables@.len() - 1].ks@ == before.tables@[before.tables@.len() - 1].ks@,
        ensures
            span(self.tables@, k) == span(before.tables@, k),
    {
        let n = before.tables@.len() as int;
        before.tables@[n - 1].lemma_same_keys(self.tables@[n - 1], k);
    }

    /// After the forward of a frozen value, the chain holds for the key, read from the
    /// table of the frozen value or before it, what it held.
    proof fn lemma_forwarded(&self, after: &Self, oldkvs: usize, idx: usize, k: K)
        requires
            self.inv(),
            after.inv(),
            self.has_table(oldkvs),
            after.kvs == self.kvs,
            after.tables@.len() >= self.tables@.len(),
            idx < self.tables@[oldkvs as int].cap(),
            self.tables@[oldkvs as int].ks@[idx as int] == Key::Present(k),
            self.tables@[oldkvs as int].vs@[idx as int] is Prime,
            after.tables@[oldkvs as int] == self.tables@[oldkvs as int],
            faded_but_upto(self.tables@, after.tables@, k, oldkvs + 1),
        ensures
            faded_upto(self.tables@, after.tables@, oldkvs as int),
    {
        let ts = self.tables@;
        let ts2 = after.tables@;
        let root = self.kvs as int;
        assert forall|a: int, k2: K| 0 <= a <= oldkvs implies fades(
            chain_slot(ts, a, k2),
            #[trigger] chain_slot(ts2, a, k2),
        ) by {
            if k2 == k {
                if a >= root {
                    lemma_frozen_chain(ts, root, oldkvs as int, idx as int, a);
                    lemma_frozen_chain(ts2, root, oldkvs as int, idx as int, a);
                } else {
                    lemma_frozen_chain(ts, root, oldkvs as int, idx as int, root);
                    lemma_frozen_chain(ts2, root, oldkvs as int, idx as int, root);
                    lemma_skip(ts, a, root, k);
                    lemma_skip(ts2, a, root, k);
                }
            }
        }
    }
}

} // verus!
