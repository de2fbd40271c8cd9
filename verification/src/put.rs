//! The put: a walk along the chain for one key, from the root table to the
//! table in which the value is written.

use vstd::prelude::*;
use crate::chain::{
    agrees_below, chain_slot, faded_but_upto, fades, lemma_chain_slot_plain,
    lemma_faded_but_is_upto, lemma_faded_but_upto_trans, lemma_faded_is_upto, lemma_faded_refl,
    lemma_faded_upto_trans, lemma_faded_upto_weaken, lemma_same_but_is_faded_but,
    lemma_same_is_faded, lemma_stops_here, link_of, no_debt, routed, same_chain, same_debts, span,
};
use crate::map::NonBlockingHashMap;
use crate::migrate::next_table;
use crate::slot::{check_match, Identity, Key, MatchingTypes, permits, StableHash, Value};
use crate::hashing::full_hash;
use crate::table::{CHM, Probe};

verus! {

impl<K: StableHash, V: Identity> NonBlockingHashMap<K, V> {
    /// What `put_if_match_impl` asks of the state in which it starts at table `kvs`.
    pub open spec fn can_put(
        &self,
        kvs: usize,
        key: Key<K>,
        putval: Value<V>,
        matchingtype: MatchingTypes,
        expval: Option<Value<V>>,
        should_help: bool,
    ) -> bool {
        let found = chain_slot(self.tables@, kvs as int, key->Present_0);
        &&& self.inv()
        &&& self.has_table(kvs)
        &&& key is Present
        &&& putval is TombStone || putval is Present
        &&& matchingtype == MatchingTypes::MatchValue ==> expval is Some
        &&& expval is Some ==> !expval->Some_0.is_prime()
        &&& routed(self.tables@, self.kvs as int, kvs as int, key->Present_0)
        &&& agrees_below(self.tables@, self.kvs as int, kvs as int, key->Present_0, putval)
        &&& matchingtype == MatchingTypes::FromCopySlot ==> {
            &&& !should_help
            &&& putval is Present
            &&& found is Empty || found == putval
        }
        &&& should_help ==> kvs == self.kvs && no_debt(self.tables@, self.kvs as int)
    }

    /// Where the put that started at table `kvs` has landed, in the cases in which it stays
    /// in that table. A tombstone for a key that the table does not hold, but has room for,
    /// changes nothing at all. In the last table of the chain, if it holds the key or has
    /// room for it, the put changes that table only, as `after_put` says, and nothing if
    /// the policy rejects the write of a key that the table holds; the root, the time of
    /// the last resize and every other table are as they were.
    pub open spec fn put_lands(
        &self,
        before: &Self,
        kvs: usize,
        k: K,
        putval: Value<V>,
        matchingtype: MatchingTypes,
        expval: Option<Value<V>>,
    ) -> bool {
        let t = before.tables@[kvs as int];
        let writes = permits(matchingtype, expval, t.held(k));
        &&& !t.has_key(k) && t.fits(k) && putval is TombStone ==> self.same_state(before)
        &&& kvs + 1 == before.tables@.len() && t.fits(k) ==> {
            &&& self.kvs == before.kvs
            &&& self.last_resize == before.last_resize
            &&& self.others_kept(before, kvs)
            &&& t.after_put(self.tables@[kvs as int], k, putval, writes)
            &&& t.has_key(k) && !writes ==> self.same_state(before)
            &&& self.walked(before, kvs, 0)
            &&& self.touched_only(before, k)
            &&& span(self.tables@, k) == span(before.tables@, k)
        }
    }

    /// What `put_if_match_impl` has done when it returns `ret`, having started at table `kvs`
    /// in the state `before`: it returns the value that the chain held for the key, the
    /// chain holds the new value if the policy permitted the write and else what it held,
    /// and what it holds for other keys is what it held, but for deletions forgotten.
    pub open spec fn put_done(
        &self,
        before: &Self,
        kvs: usize,
        key: Key<K>,
        putval: Value<V>,
        matchingtype: MatchingTypes,
        expval: Option<Value<V>>,
        should_help: bool,
        ret: Value<V>,
    ) -> bool {
        let k = key->Present_0;
        let found = chain_slot(before.tables@, kvs as int, k);
        &&& self.inv()
        &&& self.advanced_from(before)
        &&& self.kvs >= before.kvs
        &&& self.tables@.len() >= before.tables@.len()
        &&& !ret.is_prime()
        &&& ret.live() == found.live()
        &&& chain_slot(self.tables@, kvs as int, k).live() == (if permits(
            matchingtype,
            expval,
            found,
        ) {
            putval.live()
        } else {
            found.live()
        })
        &&& faded_but_upto(before.tables@, self.tables@, k, kvs as int)
        &&& self.put_lands(before, kvs, k, putval, matchingtype, expval)
        &&& no_debt(before.tables@, before.kvs as int) ==> no_debt(self.tables@, self.kvs as int)
        &&& !should_help ==> {
            &&& self.walked(before, kvs, 0)
            &&& self.touched_only(before, k)
            &&& span(self.tables@, k) == span(before.tables@, k)
        }
    }

    /// The put itself, on the chain from table `kvs` on: finds or claims the slot of the key,
    /// moves on to the successor where the table is full or under migration, and writes
    /// `putval` where the policy permits. Returns the value that it found.
    ///
    /// With `should_help` the caller pays for a chunk of migration at the first table that
    /// sends it on.
    pub fn put_if_match_impl(
        &mut self,
        kvs: usize,
        key: Key<K>,
        putval: Value<V>,
        matchingtype: MatchingTypes,
        expval: Option<Value<V>>,
        should_help: bool,
    ) -> (ret: Value<V>)
        requires
            old(self).can_put(kvs, key, putval, matchingtype, expval, should_help),
        ensures
            final(self).put_done(
                old(self),
                kvs,
                key,
                putval,
                matchingtype,
                expval,
                should_help,
                ret,
            ),
        decreases
                (if should_help {
                    1int
                } else {
                    0int
                }),
                (if should_help {
                    3int
                } else {
                    span(old(self).tables@, key->Present_0) - kvs
                }),
                3int,
    {
        let ghost k = key->Present_0;
        let ghost s0 = *self;
        let ghost found = chain_slot(s0.tables@, kvs as int, k);
        let fullhash = key.hash();
        proof {
            lemma_chain_slot_plain(s0.tables@, kvs as int, k);
            assert(s0.tables@[kvs as int].wf());
        }
        let (outcome, idx, reprobe_cnt) = self.tables[kvs].find(&key, fullhash);
        let mut v: Value<V> = Value::Empty;
        match outcome {
            Probe::Saturated => {
                proof {
                    s0.tables@[kvs as int].lemma_absent_at_limit(k);
                }
                return self.put_in_successor(kvs, key, putval, matchingtype, expval, should_help);
            },
            Probe::Vacant => {
                proof {
                    s0.tables@[kvs as int].lemma_absent_at_empty(k, reprobe_cnt as int);
                    s0.tables@[kvs as int].lemma_landing_vacant(k, reprobe_cnt as int);
                    assert(!s0.tables@[kvs as int].window_full(k));
                    lemma_stops_here(s0.tables@, s0.kvs as int, kvs as int, k);
                    assert(found is Empty);
                }
                if putval.is_tombstone() {
                    proof {
                        s0.lemma_advanced_refl();
                        s0.lemma_touched_refl(k);
                        lemma_faded_refl(s0.tables@);
                        lemma_faded_is_upto(s0.tables@, s0.tables@, kvs as int);
                        lemma_faded_upto_weaken(s0.tables@, s0.tables@, k, kvs as int, kvs as int);
                    }
                    return putval;
                }
                let won = self.claim(kvs, idx, *key.get_key(), fullhash, Ghost(reprobe_cnt as int));
                assert(won);
            },
            Probe::Found => {
                v = *self.tables[kvs].get_value_nonatomic_at(idx);
                proof {
                    s0.tables@[kvs as int].lemma_landing_found(idx as int, k);
                }
            },
        }
        let ghost s1 = *self;
        proof {
            if s1.same_state(&s0) {
                s0.lemma_advanced_refl();
                s0.lemma_touched_refl(k);
            }
            s0.lemma_claimed(&s1, kvs, idx, key, putval, matchingtype, expval, should_help);
        }
        if putval == v {
            proof {
                assert(s1.tables@[kvs as int].wf());
                s1.tables@[kvs as int].lemma_local_at(idx as int, k);
                lemma_same_is_faded(s0.tables@, s1.tables@);
                lemma_faded_is_upto(s0.tables@, s1.tables@, kvs as int);
                lemma_faded_upto_weaken(s0.tables@, s1.tables@, k, kvs as int, kvs as int);
                s1.lemma_put_lands_same(kvs, idx, k, putval, matchingtype, expval);
                s0.lemma_put_lands_later(&s1, &s1, kvs, idx, k, putval, matchingtype, expval);
            }
            return v;
        }
        proof {
            assert(s1.tables@[kvs as int].chm.newkvs == link_of(s1.tables@.len() as int, kvs as int));
        }
        if self.tables[kvs].chm.has_newkvs() && ((v.is_tombstone() && self.tables[kvs].table_full(
            reprobe_cnt,
        )) || v.is_prime()) {
            self.resize(kvs);
        }
        let ret = if self.tables[kvs].chm.has_newkvs() {
            self.put_past_copy(kvs, idx, key, putval, matchingtype, expval, should_help)
        } else {
            self.put_here(kvs, idx, key, v, putval, matchingtype, expval, should_help)
        };
        proof {
            s0.lemma_put_lands_later(&s1, self, kvs, idx, k, putval, matchingtype, expval);
            s0.lemma_put_done_later(
                &s1,
                self,
                kvs,
                key,
                putval,
                matchingtype,
                expval,
                should_help,
                ret,
            );
        }
        ret
    }

    /// The put at a table that neither holds the key nor has room for it: the table gets a
    /// successor if it has none, and the put goes on there.
    pub fn put_in_successor(
        &mut self,
        kvs: usize,
        key: Key<K>,
        putval: Value<V>,
        matchingtype: MatchingTypes,
        expval: Option<Value<V>>,
        should_help: bool,
    ) -> (ret: Value<V>)
        requires
            old(self).can_put(kvs, key, putval, matchingtype, expval, should_help),
            !old(self).tables@[kvs as int].has_key(key->Present_0),
            old(self).tables@[kvs as int].window_full(key->Present_0),
        ensures
            final(self).put_done(
                old(self),
                kvs,
                key,
                putval,
                matchingtype,
                expval,
                should_help,
                ret,
            ),
        decreases
                (if should_help {
                    1int
                } else {
                    0int
                }),
                (if should_help {
                    3int
                } else {
                    span(old(self).tables@, key->Present_0) - kvs
                }),
                2int,
    {
        let ghost k = key->Present_0;
        let ghost s0 = *self;
        let ghost found = chain_slot(s0.tables@, kvs as int, k);
        let newkvs = self.resize(kvs);
        let ghost s1 = *self;
        proof {
            s0.lemma_resized_routes(&s1, kvs, k, putval);
            lemma_faded_refl(s1.tables@);
            lemma_faded_is_upto(s1.tables@, s1.tables@, kvs as int);
        }
        if should_help {
            self.help_copy();
        }
        let ghost s2 = *self;
        proof {
            if should_help {
                s1.lemma_helped_routes(&s2, kvs, k, putval);
                s0.lemma_advanced_trans(&s1, &s2);
            }
            s2.lemma_continue(&s2, kvs, newkvs, k);
            lemma_chain_slot_plain(s2.tables@, newkvs as int, k);
            lemma_chain_slot_plain(s0.tables@, kvs as int, k);
            assert(fades(
                chain_slot(s1.tables@, kvs as int, k),
                chain_slot(s2.tables@, kvs as int, k),
            ));
            assert(chain_slot(s1.tables@, kvs as int, k) == found);
        }
        let ret = self.put_if_match_impl(newkvs, key, putval, matchingtype, expval, false);
        proof {
            s0.lemma_advanced_trans(&s2, self);
            if !should_help {
                s0.lemma_touched_trans(&s2, self, k);
            }
            s2.lemma_continue(self, kvs, newkvs, k);
            lemma_same_is_faded(s0.tables@, s1.tables@);
            lemma_faded_is_upto(s0.tables@, s1.tables@, kvs as int);
            lemma_faded_upto_trans(s0.tables@, s1.tables@, s2.tables@, kvs as int);
            lemma_faded_upto_weaken(s0.tables@, s2.tables@, k, kvs as int, kvs as int);
            lemma_faded_but_upto_trans(
                s0.tables@,
                s2.tables@,
                self.tables@,
                k,
                kvs as int,
                newkvs as int,
            );
        }
        ret
    }

    /// The put at a table from which a migration is under way, at the slot `idx` that holds
    /// the key: the slot is migrated, and the put goes on behind the table.
    pub fn put_past_copy(
        &mut self,
        kvs: usize,
        idx: usize,
        key: Key<K>,
        putval: Value<V>,
        matchingtype: MatchingTypes,
        expval: Option<Value<V>>,
        should_help: bool,
    ) -> (ret: Value<V>)
        requires
            old(self).can_put(kvs, key, putval, matchingtype, expval, should_help),
            kvs + 1 < old(self).tables@.len(),
            idx < old(self).tables@[kvs as int].cap(),
            old(self).tables@[kvs as int].ks@[idx as int] == key,
        ensures
            final(self).put_done(
                old(self),
                kvs,
                key,
                putval,
                matchingtype,
                expval,
                should_help,
                ret,
            ),
        decreases
                (if should_help {
                    1int
                } else {
                    0int
                }),
                (if should_help {
                    3int
                } else {
                    span(old(self).tables@, key->Present_0) - kvs
                }),
                2int,
    {
        let ghost k = key->Present_0;
        let ghost s1 = *self;
        proof {
            assert(s1.tables@[kvs as int].wf());
            s1.tables@[kvs as int].lemma_landing_found(idx as int, k);
        }
        let copied_kvs = self.copy_slot_and_check(kvs, idx, should_help);
        let ghost s2 = *self;
        proof {
            s1.lemma_copied_routes(&s2, kvs, idx, k, putval, should_help);
            s2.lemma_continue(&s2, kvs, copied_kvs, k);
            lemma_chain_slot_plain(s2.tables@, copied_kvs as int, k);
            lemma_chain_slot_plain(s1.tables@, kvs as int, k);
            assert(fades(
                chain_slot(s1.tables@, kvs as int, k),
                chain_slot(s2.tables@, kvs as int, k),
            ));
        }
        let ret = self.put_if_match_impl(copied_kvs, key, putval, matchingtype, expval, false);
        proof {
            s1.lemma_advanced_trans(&s2, self);
            if !should_help {
                s1.lemma_touched_trans(&s2, self, k);
            }
            s2.lemma_continue(self, kvs, copied_kvs, k);
            lemma_faded_upto_weaken(s1.tables@, s2.tables@, k, kvs as int, kvs as int);
            lemma_faded_but_upto_trans(
                s1.tables@,
                s2.tables@,
                self.tables@,
                k,
                kvs as int,
                copied_kvs as int,
            );
        }
        ret
    }

    /// The put at the last table of the chain, at the slot `idx` that holds the key and the
    /// value `v`: writes `putval` if the policy permits it.
    pub fn put_here(
        &mut self,
        kvs: usize,
        idx: usize,
        key: Key<K>,
        v: Value<V>,
        putval: Value<V>,
        matchingtype: MatchingTypes,
        expval: Option<Value<V>>,
        should_help: bool,
    ) -> (ret: Value<V>)
        requires
            old(self).can_put(kvs, key, putval, matchingtype, expval, should_help),
            kvs + 1 == old(self).tables@.len(),
            idx < old(self).tables@[kvs as int].cap(),
            old(self).tables@[kvs as int].ks@[idx as int] == key,
            old(self).tables@[kvs as int].vs@[idx as int] == v,
        ensures
            final(self).put_done(
                old(self),
                kvs,
                key,
                putval,
                matchingtype,
                expval,
                should_help,
                ret,
            ),
    {
        let ghost k = key->Present_0;
        let ghost s1 = *self;
        let expval_not_empty = match matchingtype {
            MatchingTypes::MatchValue => !expval.unwrap().is_empty(),
            MatchingTypes::FromCopySlot => false,
            _ => true,
        };
        let mut v = v;
        proof {
            assert(s1.tables@[kvs as int].wf());
            s1.tables@[kvs as int].lemma_local_at(idx as int, k);
            s1.tables@[kvs as int].lemma_landing_found(idx as int, k);
            assert(!v.is_prime());
            s1.lemma_advanced_refl();
            s1.lemma_touched_refl(k);
            lemma_faded_refl(s1.tables@);
            lemma_faded_is_upto(s1.tables@, s1.tables@, kvs as int);
            lemma_faded_upto_weaken(s1.tables@, s1.tables@, k, kvs as int, kvs as int);
        }
        loop
            invariant
                self.same_state(&s1),
                s1 == *old(self),
                k == key->Present_0,
                s1.can_put(kvs, key, putval, matchingtype, expval, should_help),
                kvs + 1 == s1.tables@.len(),
                idx < s1.tables@[kvs as int].cap(),
                s1.tables@[kvs as int].ks@[idx as int] == key,
                s1.tables@[kvs as int].vs@[idx as int] == v,
                s1.tables@[kvs as int].local(k) == Some(v),
                !v.is_prime(),
                faded_but_upto(s1.tables@, s1.tables@, k, kvs as int),
            decreases 1int,
        {
            if !check_match(matchingtype, &expval, &v) {
                proof {
                    s1.lemma_put_lands_rejected(self, kvs, idx, k, putval, matchingtype, expval);
                }
                return v;
            }
            if self.write(kvs, idx, &v, putval) {
                proof {
                    s1.lemma_put_lands_written(self, kvs, idx, k, putval, matchingtype, expval);
                    lemma_chain_slot_plain(self.tables@, kvs as int, k);
                    lemma_same_but_is_faded_but(s1.tables@, self.tables@, k);
                    lemma_faded_but_is_upto(s1.tables@, self.tables@, k, kvs as int);
                }
                return if v.is_empty() && expval_not_empty {
                    Value::new_tombstone()
                } else {
                    v
                };
            }
            v = *self.tables[kvs].get_value_nonatomic_at(idx);
        }
    }

    /// A put of the value that the slot of the key holds lands without a change.
    proof fn lemma_put_lands_same(
        &self,
        kvs: usize,
        idx: usize,
        k: K,
        putval: Value<V>,
        matchingtype: MatchingTypes,
        expval: Option<Value<V>>,
    )
        requires
            self.inv(),
            self.has_table(kvs),
            idx < self.tables@[kvs as int].cap(),
            self.tables@[kvs as int].ks@[idx as int] == Key::Present(k),
            self.tables@[kvs as int].vs@[idx as int] == putval,
        ensures
            self.put_lands(self, kvs, k, putval, matchingtype, expval),
    {
        let t = self.tables@[kvs as int];
        assert(t.wf());
        t.lemma_landing_found(idx as int, k);
        assert(t.ks@.update(idx as int, Key::Present(k)) =~= t.ks@);
        assert(t.hashes@.update(idx as int, full_hash(k)) =~= t.hashes@);
        assert(t.vs@.update(idx as int, putval) =~= t.vs@);
        self.lemma_touched_refl(k);
    }

    /// A put that the policy rejects at the slot of its key lands without a change.
    proof fn lemma_put_lands_rejected(
        &self,
        after: &Self,
        kvs: usize,
        idx: usize,
        k: K,
        putval: Value<V>,
        matchingtype: MatchingTypes,
        expval: Option<Value<V>>,
    )
        requires
            self.inv(),
            self.has_table(kvs),
            after.same_state(self),
            idx < self.tables@[kvs as int].cap(),
            self.tables@[kvs as int].ks@[idx as int] == Key::Present(k),
            !permits(matchingtype, expval, self.tables@[kvs as int].vs@[idx as int]),
        ensures
            after.put_lands(self, kvs, k, putval, matchingtype, expval),
    {
        let t = self.tables@[kvs as int];
        assert(t.wf());
        t.lemma_landing_found(idx as int, k);
        assert(t.ks@.update(idx as int, Key::Present(k)) =~= t.ks@);
        assert(t.hashes@.update(idx as int, full_hash(k)) =~= t.hashes@);
        self.lemma_touched_refl(k);
        assert(after.tables@[kvs as int] == t);
    }

    /// A put that writes at the slot of its key, in the last table, lands as `after_put`
    /// says.
    proof fn lemma_put_lands_written(
        &self,
        after: &Self,
        kvs: usize,
        idx: usize,
        k: K,
        putval: Value<V>,
        matchingtype: MatchingTypes,
        expval: Option<Value<V>>,
    )
        requires
            self.inv(),
            after.inv(),
            self.has_table(kvs),
            after.stepped(self, kvs, idx),
            after.walked(self, kvs, 0),
            after.touched_only(self, k),
            span(after.tables@, k) == span(self.tables@, k),
            idx < self.tables@[kvs as int].cap(),
            self.tables@[kvs as int].ks@[idx as int] == Key::Present(k),
            permits(matchingtype, expval, self.tables@[kvs as int].vs@[idx as int]),
            putval is Present || putval is TombStone,
            after.tables@[kvs as int].ks@ == self.tables@[kvs as int].ks@,
            after.tables@[kvs as int].hashes@ == self.tables@[kvs as int].hashes@,
            after.tables@[kvs as int].vs@ == self.tables@[kvs as int].vs@.update(idx as int, putval),
            after.tables@[kvs as int].chm == (CHM {
                size: (self.tables@[kvs as int].chm.size + (if putval is Present {
                    1int
                } else {
                    0int
                }) - (if self.tables@[kvs as int].vs@[idx as int] is Present {
                    1int
                } else {
                    0int
                })) as usize,
                ..self.tables@[kvs as int].chm
            }),
        ensures
            after.put_lands(self, kvs, k, putval, matchingtype, expval),
    {
        let t = self.tables@[kvs as int];
        assert(t.wf());
        t.lemma_landing_found(idx as int, k);
        assert(t.ks@.update(idx as int, Key::Present(k)) =~= t.ks@);
        assert(t.hashes@.update(idx as int, full_hash(k)) =~= t.hashes@);
    }

    /// A put that has landed from the state in which its key was found or placed has
    /// landed from the state before that.
    proof fn lemma_put_lands_later(
        &self,
        mid: &Self,
        after: &Self,
        kvs: usize,
        idx: usize,
        k: K,
        putval: Value<V>,
        matchingtype: MatchingTypes,
        expval: Option<Value<V>>,
    )
        requires
            self.inv(),
            mid.inv(),
            self.has_table(kvs),
            idx < self.tables@[kvs as int].cap(),
            self.tables@[kvs as int].fits(k),
            self.tables@[kvs as int].landing(k) == idx,
            mid.tables@[kvs as int].ks@[idx as int] == Key::Present(k),
            mid.advanced_from(self),
            after.advanced_from(mid),
            mid.touched_only(self, k),
            mid.walked(self, kvs, 0),
            span(mid.tables@, k) == span(self.tables@, k),
            after.put_lands(mid, kvs, k, putval, matchingtype, expval),
            (mid.same_state(self) && self.tables@[kvs as int].has_key(k)) || {
                &&& !self.tables@[kvs as int].has_key(k)
                &&& !(putval is TombStone)
                &&& mid.stepped(self, kvs, idx)
                &&& mid.tables@[kvs as int].ks@ == self.tables@[kvs as int].ks@.update(
                    idx as int,
                    Key::Present(k),
                )
                &&& mid.tables@[kvs as int].hashes@ == self.tables@[kvs as int].hashes@.update(
                    idx as int,
                    full_hash(k),
                )
                &&& mid.tables@[kvs as int].vs@ == self.tables@[kvs as int].vs@
                &&& mid.tables@[kvs as int].chm == (CHM {
                    slots: (self.tables@[kvs as int].chm.slots + 1) as usize,
                    ..self.tables@[kvs as int].chm
                })
            },
        ensures
            after.put_lands(self, kvs, k, putval, matchingtype, expval),
    {
        let t = self.tables@[kvs as int];
        let m = mid.tables@[kvs as int];
        assert(t.wf());
        assert(m.wf());
        m.lemma_landing_found(idx as int, k);
        if kvs + 1 == self.tables@.len() {
            if !t.has_key(k) {
                assert(t.vs@[idx as int] is Empty);
                assert(m.held(k) is Empty);
                assert(t.held(k) is Empty);
                assert(m.ks@.update(idx as int, Key::Present(k)) =~= m.ks@);
                assert(m.hashes@.update(idx as int, full_hash(k)) =~= m.hashes@);
            } else {
                assert(mid.tables@[kvs as int] == t);
            }
            self.lemma_touched_trans(mid, after, k);
        }
    }

    /// After the key was found or placed at slot `idx` of table `kvs`, the put may go on
    /// from there.
    proof fn lemma_claimed(
        &self,
        after: &Self,
        kvs: usize,
        idx: usize,
        key: Key<K>,
        putval: Value<V>,
        matchingtype: MatchingTypes,
        expval: Option<Value<V>>,
        should_help: bool,
    )
        requires
            self.can_put(kvs, key, putval, matchingtype, expval, should_help),
            after.inv(),
            after.same_state(self) || after.stepped(self, kvs, idx),
            same_chain(self.tables@, after.tables@),
            same_debts(self.tables@, after.tables@),
            after.walked(self, kvs, 0),
        ensures
            after.can_put(kvs, key, putval, matchingtype, expval, should_help),
    {
        let k = key->Present_0;
        let ts = self.tables@;
        let ts2 = after.tables@;
        assert forall|j0: int| after.kvs <= j0 < kvs implies (#[trigger] ts2[j0]).passes(k) by {
            assert(ts[j0].passes(k));
        }
        assert forall|j0: int, i: int|
            #![trigger ts2[j0].vs@[i]]
            after.kvs <= j0 < kvs && 0 <= i < ts2[j0].cap() && ts2[j0].ks@[i] == Key::Present(k)
                && ts2[j0].vs@[i] is Prime implies putval == Value::Present(
            ts2[j0].vs@[i]->Prime_0,
        ) by {
            assert(ts[j0].vs@[i] == ts2[j0].vs@[i]);
        }
        assert(chain_slot(ts2, kvs as int, k) == chain_slot(ts, kvs as int, k));
    }

    /// A put that is done from a state that holds what an earlier state held, and differs
    /// from it at the put's own table at most, is done from the earlier state.
    proof fn lemma_put_done_later(
        &self,
        mid: &Self,
        after: &Self,
        kvs: usize,
        key: Key<K>,
        putval: Value<V>,
        matchingtype: MatchingTypes,
        expval: Option<Value<V>>,
        should_help: bool,
        ret: Value<V>,
    )
        requires
            after.put_done(mid, kvs, key, putval, matchingtype, expval, should_help, ret),
            after.put_lands(self, kvs, key->Present_0, putval, matchingtype, expval),
            mid.advanced_from(self),
            mid.touched_only(self, key->Present_0),
            same_chain(self.tables@, mid.tables@),
            same_debts(self.tables@, mid.tables@),
            mid.walked(self, kvs, 0),
            mid.kvs == self.kvs,
            mid.tables@.len() == self.tables@.len(),
            span(mid.tables@, key->Present_0) == span(self.tables@, key->Present_0),
        ensures
            after.put_done(self, kvs, key, putval, matchingtype, expval, should_help, ret),
    {
        let k = key->Present_0;
        self.lemma_advanced_trans(mid, after);
        if !should_help {
            self.lemma_touched_trans(mid, after, k);
        }
        lemma_same_is_faded(self.tables@, mid.tables@);
        lemma_faded_is_upto(self.tables@, mid.tables@, kvs as int);
        lemma_faded_upto_weaken(self.tables@, mid.tables@, k, kvs as int, kvs as int);
        lemma_faded_but_upto_trans(
            self.tables@,
            mid.tables@,
            after.tables@,
            k,
            kvs as int,
            kvs as int,
        );
        assert(chain_slot(mid.tables@, kvs as int, k) == chain_slot(self.tables@, kvs as int, k));
        if no_debt(self.tables@, self.kvs as int) {
            assert forall|j: int| mid.kvs <= j < mid.tables@.len() implies (
            #[trigger] mid.tables@[j]).debt() == 0 by {
                assert(self.tables@[j].debt() == 0);
            }
        }
    }

    /// After a resize of a table that neither holds `k` nor has room for it, a walk for `k`
    /// may go on at the successor.
    proof fn lemma_resized_routes(&self, after: &Self, kvs: usize, k: K, putval: Value<V>)
        requires
            self.inv(),
            after.inv(),
            self.has_table(kvs),
            exists|now: i64| after.resized(self, kvs, now),
            !self.tables@[kvs as int].has_key(k),
            self.tables@[kvs as int].window_full(k),
            routed(self.tables@, self.kvs as int, kvs as int, k),
            agrees_below(self.tables@, self.kvs as int, kvs as int, k, putval),
        ensures
            routed(after.tables@, after.kvs as int, kvs + 1, k),
            agrees_below(after.tables@, after.kvs as int, kvs + 1, k, putval),
            same_chain(self.tables@, after.tables@),
            span(after.tables@, k) == span(self.tables@, k),
            after.walked(self, kvs, 0),
            !after.tables@[kvs as int].has_key(k),
            after.tables@[kvs as int].window_full(k),
            after.kvs == self.kvs,
            after.tables@.len() >= self.tables@.len(),
            after.advanced_from(self),
            after.touched_only(self, k),
            no_debt(self.tables@, self.kvs as int) ==> no_debt(after.tables@, after.kvs as int),
    {
        let now = choose|now: i64| after.resized(self, kvs, now);
        let ts = self.tables@;
        let ts2 = after.tables@;
        let n = ts.len() as int;
        assert(ts[kvs as int].chm.newkvs == link_of(n, kvs as int));
        if ts[kvs as int].chm.newkvs is None {
            ts[kvs as int].lemma_same_cells(ts2[kvs as int]);
            ts[kvs as int].lemma_same_keys(ts2[kvs as int], k);
            assert(!ts2[n].window_full(k)) by {
                ts2[n].lemma_probe_range(k, 0);
                assert(ts2[n].ks@[ts2[n].probe(k, 0)] is Empty);
            }
            assert forall|j0: int| after.kvs <= j0 < kvs + 1 implies (#[trigger] ts2[j0]).passes(
                k,
            ) by {
                if j0 < kvs {
                    assert(ts[j0].passes(k));
                }
            }
        }
        assert forall|j0: int, i: int|
            #![trigger ts2[j0].vs@[i]]
            after.kvs <= j0 < kvs + 1 && 0 <= i < ts2[j0].cap() && ts2[j0].ks@[i] == Key::Present(k)
                && ts2[j0].vs@[i] is Prime implies putval == Value::Present(
            ts2[j0].vs@[i]->Prime_0,
        ) by {
            if j0 < kvs {
                assert(ts[j0].vs@[i] == ts2[j0].vs@[i]);
            } else {
                assert(ts2[j0].has_key(k));
            }
        }
    }

    /// After a chunk of help with the migration out of the root table, which neither holds
    /// `k` nor has room for it, a walk for `k` may go on at the successor.
    proof fn lemma_helped_routes(&self, after: &Self, kvs: usize, k: K, putval: Value<V>)
        requires
            self.inv(),
            after.inv(),
            kvs == self.kvs,
            kvs + 1 < self.tables@.len(),
            self.kvs <= after.kvs <= self.kvs + 1,
            after.tables@.len() >= self.tables@.len(),
            after.has_table(kvs) ==> self.tables@[kvs as int].migrated(after.tables@[kvs as int]),
            !self.tables@[kvs as int].has_key(k),
            self.tables@[kvs as int].window_full(k),
        ensures
            routed(after.tables@, after.kvs as int, kvs + 1, k),
            agrees_below(after.tables@, after.kvs as int, kvs + 1, k, putval),
            after.has_table(kvs) ==> !after.tables@[kvs as int].has_key(k),
    {
        let ts = self.tables@;
        let ts2 = after.tables@;
        if after.has_table(kvs) {
            assert(ts[kvs as int].wf());
            assert(ts2[kvs as int].wf());
            ts[kvs as int].lemma_migrated(ts2[kvs as int], k);
            assert forall|j0: int, i: int|
                #![trigger ts2[j0].vs@[i]]
                after.kvs <= j0 < kvs + 1 && 0 <= i < ts2[j0].cap() && ts2[j0].ks@[i]
                    == Key::Present(k) && ts2[j0].vs@[i] is Prime implies putval
                == Value::Present(ts2[j0].vs@[i]->Prime_0) by {
                assert(ts2[j0].has_key(k));
            }
        }
    }

    /// After slot `idx` of table `kvs`, which holds `k`, was migrated, a walk for `k` may go
    /// on behind the table.
    proof fn lemma_copied_routes(
        &self,
        after: &Self,
        kvs: usize,
        idx: usize,
        k: K,
        putval: Value<V>,
        should_help: bool,
    )
        requires
            self.inv(),
            after.inv(),
            self.has_table(kvs),
            idx < self.tables@[kvs as int].cap(),
            self.tables@[kvs as int].ks@[idx as int] == Key::Present(k),
            routed(self.tables@, self.kvs as int, kvs as int, k),
            agrees_below(self.tables@, self.kvs as int, kvs as int, k, putval),
            after.kvs >= self.kvs,
            should_help ==> kvs == self.kvs,
            !should_help ==> after.walked(self, kvs, 0),
            after.has_table(kvs) ==> {
                &&& after.tables@[kvs as int].cap() == self.tables@[kvs as int].cap()
                &&& after.tables@[kvs as int].ks@[idx as int] == Key::Present(k)
                &&& after.tables@[kvs as int].vs@[idx as int] is TombPrime
            },
        ensures
            routed(after.tables@, after.kvs as int, next_table(after.kvs, kvs), k),
            agrees_below(after.tables@, after.kvs as int, next_table(after.kvs, kvs), k, putval),
            after.has_table(kvs) ==> after.tables@[kvs as int].local(k) == Some(
                Value::<V>::TombPrime,
            ),
    {
        let ts = self.tables@;
        let ts2 = after.tables@;
        let next = next_table(after.kvs, kvs);
        if after.has_table(kvs) {
            assert(ts2[kvs as int].wf());
            ts2[kvs as int].lemma_local_at(idx as int, k);
        }
        assert forall|j0: int| after.kvs <= j0 < next implies (#[trigger] ts2[j0]).passes(k) by {
            if j0 < kvs {
                assert(ts[j0].passes(k));
                assert(ts2[j0] == ts[j0]);
            }
        }
        assert forall|j0: int, i: int|
            #![trigger ts2[j0].vs@[i]]
            after.kvs <= j0 < next && 0 <= i < ts2[j0].cap() && ts2[j0].ks@[i] == Key::Present(k)
                && ts2[j0].vs@[i] is Prime implies putval == Value::Present(
            ts2[j0].vs@[i]->Prime_0,
        ) by {
            if j0 < kvs {
                assert(ts2[j0] == ts[j0]);
                assert(ts[j0].vs@[i] == ts2[j0].vs@[i]);
            } else {
                assert(ts2[j0].ks@[i] is Present);
                assert(ts2[j0].ks@[i] == ts2[j0].ks@[idx as int]);
            }
        }
    }
}

} // verus!
