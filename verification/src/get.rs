//! The lookup: a walk along the chain for one key.

use vstd::prelude::*;
use crate::chain::{
    chain_slot, faded_upto, fades, lemma_faded_is_upto, lemma_faded_refl, lemma_faded_upto_trans,
    lemma_faded_upto_weaken, lemma_hands_on, lemma_stops_here, link_of, span,
};
use crate::hashing::full_hash;
use crate::map::NonBlockingHashMap;
use crate::slot::{Identity, Key, StableHash, Value};
use crate::table::Probe;

verus! {

impl<K: StableHash, V: Identity> NonBlockingHashMap<K, V> {
    /// Whether a lookup of `k` that starts at table `kvs` ends there without a change: the
    /// table holds the key or has room for it, and the value cell that goes with the key
    /// carries a value that is not frozen, or nothing, or the table has no successor.
    pub open spec fn get_is_quiet(&self, kvs: usize, k: K) -> bool {
        let t = self.tables@[kvs as int];
        &&& t.fits(k)
        &&& t.held(k) is Present || t.held(k) is Empty || kvs + 1 == self.tables@.len()
    }

    /// The lookup itself, on the chain from table `kvs` on. A slot whose value is deleted
    /// or frozen in a table under migration is first migrated: a reader helps the slot that
    /// it needs, and no other.
    pub fn get_impl(&mut self, kvs: usize, key: Key<K>, fullhash: u64) -> (ret: Option<V>)
        requires
            old(self).inv(),
            old(self).has_table(kvs),
            key is Present,
            fullhash == full_hash(key->Present_0),
        ensures
            final(self).inv(),
            final(self).advanced_from(old(self)),
            final(self).kvs >= old(self).kvs,
            final(self).tables@.len() >= old(self).tables@.len(),
            ret == chain_slot(old(self).tables@, kvs as int, key->Present_0).live(),
            faded_upto(old(self).tables@, final(self).tables@, kvs as int),
            final(self).walked(old(self), kvs, 0),
            final(self).touched_only(old(self), key->Present_0),
            old(self).get_is_quiet(kvs, key->Present_0) ==> final(self).same_state(old(self)),
        decreases span(old(self).tables@, key->Present_0) - kvs,
    {
        let ghost k = key->Present_0;
        let ghost s0 = *self;
        proof {
            assert(s0.tables@[kvs as int].wf());
            assert(s0.tables@[kvs as int].chm.newkvs == link_of(s0.tables@.len() as int, kvs as int));
            s0.lemma_advanced_refl();
            s0.lemma_touched_refl(k);
            lemma_faded_refl(s0.tables@);
            lemma_faded_is_upto(s0.tables@, s0.tables@, kvs as int);
        }
        let (outcome, idx, reprobe_cnt) = self.tables[kvs].find(&key, fullhash);
        match outcome {
            Probe::Vacant => {
                proof {
                    s0.tables@[kvs as int].lemma_absent_at_empty(k, reprobe_cnt as int);
                    s0.tables@[kvs as int].lemma_landing_vacant(k, reprobe_cnt as int);
                    assert(!s0.tables@[kvs as int].window_full(k));
                    lemma_stops_here(s0.tables@, s0.kvs as int, kvs as int, k);
                }
                None
            },
            Probe::Saturated => {
                proof {
                    s0.tables@[kvs as int].lemma_absent_at_limit(k);
                    lemma_hands_on(s0.tables@, kvs as int, k);
                }
                if self.tables[kvs].chm.has_newkvs() {
                    let ret = self.get_impl(kvs + 1, key, fullhash);
                    proof {
                        lemma_faded_upto_weaken(
                            s0.tables@,
                            self.tables@,
                            k,
                            kvs + 1,
                            kvs as int,
                        );
                    }
                    ret
                } else {
                    None
                }
            },
            Probe::Found => {
                let v = *self.tables[kvs].get_value_nonatomic_at(idx);
                proof {
                    s0.tables@[kvs as int].lemma_local_at(idx as int, k);
                    s0.tables@[kvs as int].lemma_landing_found(idx as int, k);
                }
                match v {
                    Value::Present(found) => Some(found),
                    Value::Empty => None,
                    _ => {
                        if self.tables[kvs].chm.has_newkvs() {
                            let next = self.copy_slot_and_check(kvs, idx, false);
                            let ghost s1 = *self;
                            proof {
                                if s1.has_table(kvs) {
                                    assert(s1.tables@[kvs as int].wf());
                                    s1.tables@[kvs as int].lemma_local_at(idx as int, k);
                                }
                                s1.lemma_continue(&s1, kvs, next, k);
                                assert(fades(
                                    chain_slot(s0.tables@, kvs as int, k),
                                    chain_slot(s1.tables@, kvs as int, k),
                                ));
                            }
                            let ret = self.get_impl(next, key, fullhash);
                            proof {
                                s0.lemma_advanced_trans(&s1, self);
                                s0.lemma_touched_trans(&s1, self, k);
                                lemma_faded_upto_weaken(
                                    s1.tables@,
                                    self.tables@,
                                    k,
                                    next as int,
                                    kvs as int,
                                );
                                lemma_faded_upto_trans(
                                    s0.tables@,
                                    s1.tables@,
                                    self.tables@,
                                    kvs as int,
                                );
                            }
                            ret
                        } else {
                            None
                        }
                    },
                }
            },
        }
    }
}

} // verus!
