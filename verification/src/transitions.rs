//! The transitions of the map: each changes one cell or one counter of one
//! table, or gives a table a successor, or moves the root on, and each keeps
//! the map's invariant. All that an operation does to the map, it does by
//! these.

use vstd::prelude::*;
use crate::chain::{
    agrees_below, chain_slot, debts_but, faded, fades, lemma_faded_is_upto, lemma_faded_refl,
    lemma_fades_below, lemma_same_is_faded, lemma_stops_here, link_of, routed, same_but,
    same_chain, same_debts, span,
};
use crate::clock::now_seconds;
use crate::count::lemma_count_bounds;
use crate::frames::{
    lemma_append, lemma_promote, lemma_same_cells_chain, lemma_step_above, lemma_step_basic,
    lemma_step_frozen, lemma_step_other_key, lemma_write_frozen,
};
use crate::hashing::full_hash;
use crate::interference::guarded_step;
use crate::map::NonBlockingHashMap;
use crate::policy::{next_size, successor_size};
use crate::slot::{Identity, Key, StableHash, Value};
use crate::table::{CHM, KVs, REPROBE_LIMIT};

verus! {

impl<K: StableHash, V: Identity> NonBlockingHashMap<K, V> {
    /// Claims the empty key cell `idx` of table `j` for `key`.
    pub fn claim(&mut self, j: usize, idx: usize, key: K, fullhash: u64, Ghost(d): Ghost<int>) -> (won: bool)
        requires
            old(self).inv(),
            old(self).has_table(j),
            idx < old(self).tables@[j as int].cap(),
            fullhash == full_hash(key),
            0 <= d < REPROBE_LIMIT,
            old(self).tables@[j as int].probe(key, d) == idx,
            old(self).tables@[j as int].missed(key, d),
            routed(old(self).tables@, old(self).kvs as int, j as int, key),
        ensures
            final(self).inv(),
            final(self).stepped(old(self), j, idx),
            guarded_step(
                old(self).tables@,
                old(self).kvs as int,
                j as int,
                final(self).tables@[j as int],
                idx as int,
            ),
            final(self).advanced_from(old(self)),
            won == (old(self).tables@[j as int].ks@[idx as int] is Empty),
            won ==> {
                &&& final(self).tables@[j as int].ks@[idx as int] == Key::Present(key)
                &&& final(self).tables@[j as int].vs@[idx as int] is Empty
                &&& final(self).tables@[j as int].ks@ == old(self).tables@[j as int].ks@.update(
                    idx as int,
                    Key::Present(key),
                )
                &&& final(self).tables@[j as int].hashes@ == old(self).tables@[j as int].hashes@.update(
                    idx as int,
                    fullhash,
                )
                &&& final(self).tables@[j as int].vs@ == old(self).tables@[j as int].vs@
                &&& final(self).tables@[j as int].chm == (CHM {
                    slots: (old(self).tables@[j as int].chm.slots + 1) as usize,
                    ..old(self).tables@[j as int].chm
                })
            },
            final(self).touched_only(old(self), key),
            !won ==> final(self).tables@ == old(self).tables@,
            same_chain(old(self).tables@, final(self).tables@),
            final(self)@ == old(self)@,
            same_debts(old(self).tables@, final(self).tables@),
            final(self).walked(old(self), j, 0),
            span(final(self).tables@, key) == span(old(self).tables@, key),
    {
        let won = self.tables[j].claim_slot(idx, key, fullhash, Ghost(d));
        proof {
            let ts = old(self).tables@;
            let root = self.kvs as int;
            let after = self.tables@[j as int];
            let ts2 = ts.update(j as int, after);
            assert(self.tables@ =~= ts2);
            self.lemma_stepped_advanced(old(self), j, idx);
            if won {
                lemma_step_basic(ts, root, j as int, after, idx as int);
                ts[j as int].lemma_step_held(after, idx as int, key);
                lemma_stops_here(ts, root, j as int, key);
                assert forall|a: int, k: K| 0 <= a implies #[trigger] chain_slot(ts2, a, k)
                    == chain_slot(ts, a, k) by {
                    if k == key {
                        if a > j {
                            lemma_step_above(ts, j as int, after, k, a);
                        } else {
                            lemma_step_above(ts, j as int, after, k, j + 1);
                            assert(chain_slot(ts2, j as int, k) == chain_slot(ts, j as int, k));
                            assert forall|t: int| a <= t < j implies (#[trigger] ts2[t]).local(k)
                                == ts[t].local(k) by {}
                            lemma_fades_below(ts, ts2, j as int, k, a);
                        }
                    } else {
                        lemma_step_other_key(ts, j as int, after, idx as int, k, a);
                    }
                }
                lemma_step_frozen(ts, root, j as int, after, idx as int);
            } else {
                assert(ts2 =~= ts);
                lemma_faded_refl(ts);
            }
            lemma_same_is_faded(ts, self.tables@);
            self.lemma_faded_entries(old(self));
        }
        won
    }

    /// Seals the empty key cell `idx` of table `j`, from which a migration is under way.
    pub fn seal(&mut self, j: usize, idx: usize) -> (won: bool)
        requires
            old(self).inv(),
            old(self).has_table(j),
            j + 1 < old(self).tables@.len(),
            idx < old(self).tables@[j as int].cap(),
        ensures
            final(self).inv(),
            final(self).stepped(old(self), j, idx),
            guarded_step(
                old(self).tables@,
                old(self).kvs as int,
                j as int,
                final(self).tables@[j as int],
                idx as int,
            ),
            final(self).advanced_from(old(self)),
            won == (old(self).tables@[j as int].ks@[idx as int] is Empty),
            won ==> final(self).tables@[j as int].ks@[idx as int] is TombStone,
            !won ==> final(self).tables@ == old(self).tables@,
            same_chain(old(self).tables@, final(self).tables@),
            final(self)@ == old(self)@,
            debts_but(old(self).tables@, final(self).tables@, j as int, if won { 1 } else { 0 }),
            final(self).walked(old(self), j, if won { 1 } else { 0 }),
            final(self).tables@[j as int].chm == old(self).tables@[j as int].chm,
            final(self).tables@[j as int].hashes@ == old(self).tables@[j as int].hashes@,
            forall|k: K| #[trigger] span(final(self).tables@, k) == span(old(self).tables@, k),
    {
        let won = self.tables[j].seal_slot(idx);
        proof {
            let ts = old(self).tables@;
            let root = self.kvs as int;
            let after = self.tables@[j as int];
            let ts2 = ts.update(j as int, after);
            assert(self.tables@ =~= ts2);
            self.lemma_stepped_advanced(old(self), j, idx);
            if won {
                lemma_step_basic(ts, root, j as int, after, idx as int);
                assert forall|a: int, k: K| 0 <= a implies #[trigger] chain_slot(ts2, a, k)
                    == chain_slot(ts, a, k) by {
                    lemma_step_other_key(ts, j as int, after, idx as int, k, a);
                }
                lemma_step_frozen(ts, root, j as int, after, idx as int);
            } else {
                assert(ts2 =~= ts);
                lemma_faded_refl(ts);
            }
            lemma_same_is_faded(ts, self.tables@);
            self.lemma_faded_entries(old(self));
        }
        won
    }

    /// Writes `putval` over the value cell `idx` of table `j`, if the cell still holds
    /// `expected`.
    pub fn write(&mut self, j: usize, idx: usize, expected: &Value<V>, putval: Value<V>) -> (won: bool)
        requires
            old(self).inv(),
            old(self).has_table(j),
            idx < old(self).tables@[j as int].cap(),
            old(self).tables@[j as int].ks@[idx as int] is Present,
            !expected.is_prime(),
            putval is TombStone || putval is Present,
            agrees_below(
                old(self).tables@,
                old(self).kvs as int,
                j as int,
                old(self).tables@[j as int].ks@[idx as int]->Present_0,
                putval,
            ),
        ensures
            final(self).inv(),
            final(self).stepped(old(self), j, idx),
            guarded_step(
                old(self).tables@,
                old(self).kvs as int,
                j as int,
                final(self).tables@[j as int],
                idx as int,
            ),
            final(self).advanced_from(old(self)),
            won == (old(self).tables@[j as int].vs@[idx as int] == *expected),
            won ==> {
                &&& final(self).tables@[j as int].vs@[idx as int] == putval
                &&& final(self).tables@[j as int].ks@ == old(self).tables@[j as int].ks@
                &&& final(self).tables@[j as int].hashes@ == old(self).tables@[j as int].hashes@
                &&& final(self).tables@[j as int].vs@ == old(self).tables@[j as int].vs@.update(
                    idx as int,
                    putval,
                )
                &&& final(self).tables@[j as int].chm == (CHM {
                    size: (old(self).tables@[j as int].chm.size + (if putval is Present {
                        1int
                    } else {
                        0int
                    }) - (if expected is Present {
                        1int
                    } else {
                        0int
                    })) as usize,
                    ..old(self).tables@[j as int].chm
                })
                &&& chain_slot(
                    final(self).tables@,
                    j as int,
                    old(self).tables@[j as int].ks@[idx as int]->Present_0,
                ) == putval
            },
            !won ==> final(self).tables@ == old(self).tables@,
            same_but(
                old(self).tables@,
                final(self).tables@,
                old(self).tables@[j as int].ks@[idx as int]->Present_0,
            ),
            final(self).touched_only(
                old(self),
                old(self).tables@[j as int].ks@[idx as int]->Present_0,
            ),
            same_debts(old(self).tables@, final(self).tables@),
            final(self).walked(old(self), j, 0),
            forall|k: K| #[trigger] span(final(self).tables@, k) == span(old(self).tables@, k),
    {
        let won = self.tables[j].write_value(idx, expected, putval);
        proof {
            let ts = old(self).tables@;
            let root = self.kvs as int;
            let after = self.tables@[j as int];
            let ts2 = ts.update(j as int, after);
            assert(self.tables@ =~= ts2);
            self.lemma_stepped_advanced(old(self), j, idx);
            if won {
                lemma_step_basic(ts, root, j as int, after, idx as int);
                lemma_write_frozen(
                    ts,
                    root,
                    j as int,
                    after,
                    idx as int,
                    ts[j as int].ks@[idx as int]->Present_0,
                );
                assert(after.ks@ =~= ts[j as int].ks@);
                assert forall|k: K| #[trigger] span(ts2, k) == span(ts, k) by {
                    ts[j as int].lemma_same_keys(after, k);
                }
            } else {
                assert(ts2 =~= ts);
            }
        }
        won
    }

    /// Freezes the value cell `idx` of table `j`, from which a migration is under way, if
    /// the cell still holds `expected`.
    pub fn freeze(&mut self, j: usize, idx: usize, expected: &Value<V>) -> (won: bool)
        requires
            old(self).inv(),
            old(self).has_table(j),
            j + 1 < old(self).tables@.len(),
            idx < old(self).tables@[j as int].cap(),
            old(self).tables@[j as int].ks@[idx as int] is Present,
            !expected.is_prime(),
        ensures
            final(self).inv(),
            final(self).stepped(old(self), j, idx),
            guarded_step(
                old(self).tables@,
                old(self).kvs as int,
                j as int,
                final(self).tables@[j as int],
                idx as int,
            ),
            final(self).advanced_from(old(self)),
            won == (old(self).tables@[j as int].vs@[idx as int] == *expected),
            won ==> final(self).tables@[j as int].vs@[idx as int] == expected.primed(),
            final(self).touched_only(
                old(self),
                old(self).tables@[j as int].ks@[idx as int]->Present_0,
            ),
            !won ==> final(self).tables@ == old(self).tables@,
            faded(old(self).tables@, final(self).tables@),
            final(self)@ == old(self)@,
            debts_but(
                old(self).tables@,
                final(self).tables@,
                j as int,
                if won && !(expected is Present) { 1 } else { 0 },
            ),
            final(self).walked(old(self), j, if won && !(expected is Present) { 1 } else { 0 }),
            final(self).tables@[j as int].chm == old(self).tables@[j as int].chm,
            final(self).tables@[j as int].hashes@ == old(self).tables@[j as int].hashes@,
            forall|k: K| #[trigger] span(final(self).tables@, k) == span(old(self).tables@, k),
    {
        let won = self.tables[j].freeze_value(idx, expected);
        proof {
            let ts = old(self).tables@;
            let root = self.kvs as int;
            let after = self.tables@[j as int];
            let ts2 = ts.update(j as int, after);
            let key = ts[j as int].ks@[idx as int]->Present_0;
            assert(self.tables@ =~= ts2);
            self.lemma_stepped_advanced(old(self), j, idx);
            if won {
                lemma_step_basic(ts, root, j as int, after, idx as int);
                ts[j as int].lemma_step_held(after, idx as int, key);
                lemma_stops_here(ts, root, j as int, key);
                assert forall|a: int, k: K| 0 <= a implies fades(
                    chain_slot(ts, a, k),
                    #[trigger] chain_slot(ts2, a, k),
                ) by {
                    if k == key {
                        if a > j {
                            lemma_step_above(ts, j as int, after, k, a);
                        } else {
                            lemma_step_above(ts, j as int, after, k, j + 1);
                            assert(fades(chain_slot(ts, j as int, k), chain_slot(ts2, j as int, k)));
                            assert forall|t: int| a <= t < j implies (#[trigger] ts2[t]).local(k)
                                == ts[t].local(k) by {}
                            lemma_fades_below(ts, ts2, j as int, k, a);
                        }
                    } else {
                        lemma_step_other_key(ts, j as int, after, idx as int, k, a);
                    }
                }
                lemma_step_frozen(ts, root, j as int, after, idx as int);
            } else {
                assert(ts2 =~= ts);
                lemma_faded_refl(ts);
            }
            self.lemma_faded_entries(old(self));
        }
        won
    }

    /// Marks the frozen value cell `idx` of table `j` as moved out, once the successor holds
    /// the value, if the cell still holds `expected`.
    pub fn finish(&mut self, j: usize, idx: usize, expected: &Value<V>) -> (won: bool)
        requires
            old(self).inv(),
            old(self).has_table(j),
            j + 1 < old(self).tables@.len(),
            idx < old(self).tables@[j as int].cap(),
            old(self).tables@[j as int].ks@[idx as int] is Present,
            *expected is Prime,
            old(self).tables@[j as int].vs@[idx as int] == *expected ==> chain_slot(
                old(self).tables@,
                j + 1,
                old(self).tables@[j as int].ks@[idx as int]->Present_0,
            ) == expected.unprimed(),
        ensures
            final(self).inv(),
            final(self).stepped(old(self), j, idx),
            guarded_step(
                old(self).tables@,
                old(self).kvs as int,
                j as int,
                final(self).tables@[j as int],
                idx as int,
            ),
            final(self).advanced_from(old(self)),
            won == (old(self).tables@[j as int].vs@[idx as int] == *expected),
            won ==> final(self).tables@[j as int].vs@[idx as int] is TombPrime,
            final(self).touched_only(
                old(self),
                old(self).tables@[j as int].ks@[idx as int]->Present_0,
            ),
            !won ==> final(self).tables@ == old(self).tables@,
            same_chain(old(self).tables@, final(self).tables@),
            final(self)@ == old(self)@,
            debts_but(old(self).tables@, final(self).tables@, j as int, if won { 1 } else { 0 }),
            final(self).walked(old(self), j, if won { 1 } else { 0 }),
            final(self).tables@[j as int].chm == old(self).tables@[j as int].chm,
            final(self).tables@[j as int].hashes@ == old(self).tables@[j as int].hashes@,
            forall|k: K| #[trigger] span(final(self).tables@, k) == span(old(self).tables@, k),
    {
        let won = self.tables[j].finish_value(idx, expected);
        proof {
            let ts = old(self).tables@;
            let root = self.kvs as int;
            let after = self.tables@[j as int];
            let ts2 = ts.update(j as int, after);
            let key = ts[j as int].ks@[idx as int]->Present_0;
            assert(self.tables@ =~= ts2);
            self.lemma_stepped_advanced(old(self), j, idx);
            if won {
                lemma_step_basic(ts, root, j as int, after, idx as int);
                ts[j as int].lemma_step_held(after, idx as int, key);
                assert forall|a: int, k: K| 0 <= a implies #[trigger] chain_slot(ts2, a, k)
                    == chain_slot(ts, a, k) by {
                    if k == key {
                        if a > j {
                            lemma_step_above(ts, j as int, after, k, a);
                        } else {
                            lemma_step_above(ts, j as int, after, k, j + 1);
                            assert(chain_slot(ts2, j as int, k) == chain_slot(ts, j as int, k));
                            assert forall|t: int| a <= t < j implies (#[trigger] ts2[t]).local(k)
                                == ts[t].local(k) by {}
                            lemma_fades_below(ts, ts2, j as int, k, a);
                        }
                    } else {
                        lemma_step_other_key(ts, j as int, after, idx as int, k, a);
                    }
                }
                lemma_step_frozen(ts, root, j as int, after, idx as int);
            } else {
                assert(ts2 =~= ts);
                lemma_faded_refl(ts);
            }
            lemma_same_is_faded(ts, self.tables@);
            self.lemma_faded_entries(old(self));
        }
        won
    }

    /// Reserves the next `chunk` slots of table `oldkvs` for the caller, by moving the
    /// table's cursor on from `expected`. Fails, and changes nothing, if the cursor stands
    /// elsewhere.
    pub fn reserve(&mut self, oldkvs: usize, expected: usize, chunk: usize) -> (won: bool)
        requires
            old(self).inv(),
            old(self).has_table(oldkvs),
            expected < 2 * old(self).tables@[oldkvs as int].cap(),
            chunk <= old(self).tables@[oldkvs as int].cap(),
        ensures
            final(self).inv(),
            final(self).kvs == old(self).kvs,
            final(self).last_resize == old(self).last_resize,
            final(self).tables@ == old(self).tables@.update(
                oldkvs as int,
                final(self).tables@[oldkvs as int],
            ),
            old(self).tables@[oldkvs as int].same_cells(final(self).tables@[oldkvs as int]),
            won == (old(self).tables@[oldkvs as int].chm.copy_idx == expected),
            won ==> final(self).tables@[oldkvs as int].chm == (CHM {
                copy_idx: (expected + chunk) as usize,
                ..old(self).tables@[oldkvs as int].chm
            }),
            !won ==> final(self).same_state(old(self)),
            final(self).tables@[oldkvs as int].debt() == old(self).tables@[oldkvs as int].debt(),
            same_chain(old(self).tables@, final(self).tables@),
            final(self)@ == old(self)@,
            final(self).advanced_from(old(self)),
    {
        proof {
            assert(self.tables@[oldkvs as int].wf());
        }
        let won = self.tables[oldkvs].reserve_chunk(expected, chunk);
        proof {
            let ts = old(self).tables@;
            let after = self.tables@[oldkvs as int];
            assert(self.tables@ =~= ts.update(oldkvs as int, after));
            lemma_same_cells_chain(ts, self.kvs as int, oldkvs as int, after);
            self.lemma_recounted_advanced(old(self), oldkvs);
            lemma_same_is_faded(ts, self.tables@);
            lemma_faded_is_upto(ts, self.tables@, self.kvs as int);
            self.lemma_view_kept(old(self));
            if !won {
                assert(self.tables@ =~= ts);
            }
        }
        won
    }

    /// This map is `before` after `resize_at(kvs, now)`.
    pub open spec fn resized(&self, before: &Self, kvs: usize, now: i64) -> bool {
        let old_table = before.tables@[kvs as int];
        let n = before.tables@.len() as int;
        &&& self.kvs == before.kvs
        &&& self.last_resize == before.last_resize
        &&& same_chain(before.tables@, self.tables@)
        &&& self@ == before@
        &&& self.advanced_from(before)
        &&& forall|k: K| #[trigger] self.touched_only(before, k)
        &&& if old_table.chm.newkvs is Some {
            self.tables@ == before.tables@
        } else {
            &&& self.tables@.len() == n + 1
            &&& self.tables@[n].is_fresh(
                successor_size(
                    old_table.chm.size as int,
                    old_table.cap(),
                    old_table.chm.slots as int,
                    before.last_resize as int,
                    now as int,
                ),
            )
            &&& self.tables@[n].wf()
            &&& self.tables@[n].debt() == 0
            &&& forall|k: K| !(#[trigger] self.tables@[n].has_key(k))
            &&& forall|k: K| #[trigger] self.tables@[n].fits(k)
            &&& forall|t: int| 0 <= t < n && t != kvs ==> #[trigger] self.tables@[t] == before.tables@[t]
            &&& old_table.same_cells(self.tables@[kvs as int])
            &&& self.tables@[kvs as int].chm == (CHM {
                newkvs: Some(n as usize),
                has_newkvs: true,
                ..old_table.chm
            })
            &&& self.tables@[kvs as int].debt() == old_table.debt()
        }
    }

    /// The successor of table `kvs`. Where the table has none yet, one is made, of the size
    /// that the table's load and the time since the last resize call for: the clock is read
    /// for it.
    pub fn resize(&mut self, kvs: usize) -> (newkvs: usize)
        requires
            old(self).inv(),
            old(self).has_table(kvs),
        ensures
            final(self).inv(),
            newkvs == kvs + 1,
            final(self).has_table(newkvs),
            final(self)@ == old(self)@,
            exists|now: i64| final(self).resized(old(self), kvs, now),
    {
        proof {
            assert(self.tables@[kvs as int].chm.newkvs == link_of(
                self.tables@.len() as int,
                kvs as int,
            ));
            assert(self.tables@[kvs as int].wf());
        }
        let now = if self.tables[kvs].chm.has_newkvs() {
            self.last_resize
        } else {
            now_seconds()
        };
        let newkvs = self.resize_at(kvs, now);
        assert(self.resized(old(self), kvs, now));
        newkvs
    }

    /// The successor of table `kvs`, as `resize` finds or makes it when the clock reads `now`.
    pub fn resize_at(&mut self, kvs: usize, now: i64) -> (newkvs: usize)
        requires
            old(self).inv(),
            old(self).has_table(kvs),
        ensures
            final(self).inv(),
            newkvs == kvs + 1,
            final(self).has_table(newkvs),
            final(self).resized(old(self), kvs, now),
    {
        proof {
            assert(self.tables@[kvs as int].chm.newkvs == link_of(
                self.tables@.len() as int,
                kvs as int,
            ));
            assert(self.tables@[kvs as int].wf());
        }
        if self.tables[kvs].chm.has_newkvs() {
            proof {
                self.lemma_advanced_refl();
            }
            return kvs + 1;
        }
        let oldlen = self.tables[kvs].len();
        let sz = self.tables[kvs].chm.size;
        proof {
            lemma_count_bounds(
                self.tables@[kvs as int].cap(),
                self.tables@[kvs as int].is_filled(),
            );
        }
        let newsz = next_size(sz, oldlen, self.tables[kvs].chm.slots, self.last_resize, now);
        let newkvs: KVs<K, V> = KVs::new(newsz);
        let id = self.tables.len();
        let winner = self.tables[kvs].set_successor(id);
        self.tables.push(newkvs);
        proof {
            let ts = old(self).tables@;
            let last = self.tables@[kvs as int];
            newkvs.lemma_fresh_wf();
            lemma_append(ts, self.kvs as int, last, newkvs);
            assert(self.tables@ =~= ts.update(ts.len() - 1, last).push(newkvs));
            self.lemma_recounted_advanced(old(self), kvs);
            lemma_same_is_faded(ts, self.tables@);
            lemma_faded_is_upto(ts, self.tables@, self.kvs as int);
            self.lemma_view_kept(old(self));
        }
        winner
    }

    /// Whether crediting `work_done` slots to table `oldkvs` moves the root on.
    pub open spec fn promotes(&self, oldkvs: usize, work_done: usize) -> bool {
        &&& self.kvs == oldkvs
        &&& oldkvs < self.tables@.len()
        &&& self.tables@[oldkvs as int].chm.copy_done + work_done == self.tables@[oldkvs as int].cap()
    }

    /// Credits `work_done` finished slots to table `oldkvs`. Once all its slots are
    /// credited, the root, if it is this table, moves on to the successor, the table is
    /// released, and the clock is read for the time of the move. A table that the root has
    /// left behind has nothing to credit.
    ///
    /// A caller credits the slots that `copy_slot` has reported to it as finished, and no
    /// others: so the credit never exceeds the slots that are terminal and not yet
    /// credited. This is what keeps the count of credited slots within the size of the
    /// table, and what makes a full count mean that every slot is moved on.
    pub fn copy_check_and_promote(&mut self, oldkvs: usize, work_done: usize)
        requires
            old(self).inv(),
            oldkvs < old(self).tables@.len(),
            old(self).has_table(oldkvs) ==> work_done <= old(self).tables@[oldkvs as int].debt(),
        ensures
            final(self).inv(),
            !old(self).has_table(oldkvs) ==> final(self).same_state(old(self)),
            forall|k: K| #[trigger] final(self).touched_only(old(self), k),
            same_chain(old(self).tables@, final(self).tables@),
            final(self)@ == old(self)@,
            final(self).advanced_from(old(self)),
            final(self).tables@.len() == old(self).tables@.len(),
            final(self).kvs == old(self).kvs + if old(self).promotes(oldkvs, work_done) {
                1int
            } else {
                0int
            },
            forall|t: int|
                0 <= t < old(self).tables@.len() && t != oldkvs ==> #[trigger] final(self).tables@[t]
                    == old(self).tables@[t],
            old(self).has_table(oldkvs) ==> final(self).tables@[oldkvs as int].chm == (CHM {
                copy_done: (old(self).tables@[oldkvs as int].chm.copy_done + work_done) as usize,
                ..old(self).tables@[oldkvs as int].chm
            }),
            final(self).has_table(oldkvs) ==> {
                &&& old(self).tables@[oldkvs as int].same_cells(final(self).tables@[oldkvs as int])
                &&& final(self).tables@[oldkvs as int].debt() == old(self).tables@[oldkvs as int].debt()
                    - work_done
            },
            !old(self).promotes(oldkvs, work_done) ==> final(self).last_resize == old(self).last_resize,
    {
        proof {
            if self.has_table(oldkvs) {
                assert(self.tables@[oldkvs as int].wf());
                self.tables@[oldkvs as int].lemma_all_terminal();
            }
        }
        let now = if self.kvs == oldkvs && self.tables[oldkvs].chm.copy_done + work_done
            == self.tables[oldkvs].len() {
            now_seconds()
        } else {
            self.last_resize
        };
        self.copy_check_and_promote_at(oldkvs, work_done, now);
    }

    /// What `copy_check_and_promote` does when the clock reads `now`.
    pub fn copy_check_and_promote_at(&mut self, oldkvs: usize, work_done: usize, now: i64)
        requires
            old(self).inv(),
            oldkvs < old(self).tables@.len(),
            old(self).has_table(oldkvs) ==> work_done <= old(self).tables@[oldkvs as int].debt(),
        ensures
            final(self).inv(),
            !old(self).has_table(oldkvs) ==> final(self).same_state(old(self)),
            forall|k: K| #[trigger] final(self).touched_only(old(self), k),
            same_chain(old(self).tables@, final(self).tables@),
            final(self)@ == old(self)@,
            final(self).advanced_from(old(self)),
            final(self).tables@.len() == old(self).tables@.len(),
            final(self).kvs == old(self).kvs + if old(self).promotes(oldkvs, work_done) {
                1int
            } else {
                0int
            },
            forall|t: int|
                0 <= t < old(self).tables@.len() && t != oldkvs ==> #[trigger] final(self).tables@[t]
                    == old(self).tables@[t],
            old(self).has_table(oldkvs) ==> final(self).tables@[oldkvs as int].chm == (CHM {
                copy_done: (old(self).tables@[oldkvs as int].chm.copy_done + work_done) as usize,
                ..old(self).tables@[oldkvs as int].chm
            }),
            final(self).has_table(oldkvs) ==> {
                &&& old(self).tables@[oldkvs as int].same_cells(final(self).tables@[oldkvs as int])
                &&& final(self).tables@[oldkvs as int].debt() == old(self).tables@[oldkvs as int].debt()
                    - work_done
            },
            final(self).last_resize == if old(self).promotes(oldkvs, work_done) {
                now
            } else {
                old(self).last_resize
            },
    {
        let ghost ts = self.tables@;
        let ghost root = self.kvs as int;
        if oldkvs < self.kvs {
            proof {
                lemma_faded_refl(ts);
                self.lemma_advanced_refl();
            }
            return ;
        }
        let oldlen = self.tables[oldkvs].len();
        proof {
            assert(ts[oldkvs as int].wf());
            ts[oldkvs as int].lemma_all_terminal();
        }
        let mut copy_done = self.tables[oldkvs].chm.copy_done;
        if work_done > 0 {
            while !self.tables[oldkvs].add_copy_done(copy_done, work_done)
                invariant
                    self.tables@ == ts,
                    self.kvs == root,
                    self.last_resize == old(self).last_resize,
                    oldkvs < ts.len(),
                    ts[oldkvs as int].wf(),
                    work_done <= ts[oldkvs as int].debt(),
                decreases
                        (if ts[oldkvs as int].chm.copy_done == copy_done {
                            0int
                        } else {
                            1int
                        }),
            {
                proof {
                    assert(self.tables@ =~= ts);
                }
                copy_done = self.tables[oldkvs].chm.copy_done;
            }
        }
        let ghost credited = self.tables@[oldkvs as int];
        let ghost ts1 = self.tables@;
        let ghost s1 = *self;
        proof {
            assert(ts1 =~= ts.update(oldkvs as int, credited));
            lemma_same_cells_chain(ts, root, oldkvs as int, credited);
            s1.lemma_recounted_advanced(old(self), oldkvs);
        }
        if copy_done + work_done == oldlen && self.kvs == oldkvs {
            proof {
                credited.lemma_all_terminal();
                assert(credited.terminal(0));
                assert(ts1[oldkvs as int].chm.newkvs == link_of(
                    ts1.len() as int,
                    oldkvs as int,
                ));
            }
            self.kvs = oldkvs + 1;
            self.tables[oldkvs].release();
            self.last_resize = now;
            proof {
                let shell = self.tables@[oldkvs as int];
                lemma_promote(ts1, root, shell);
                assert(self.tables@ =~= ts1.update(root, shell));
                assert forall|t: int|
                    self.kvs <= t < s1.tables@.len() implies s1.tables@[t].advanced(
                    #[trigger] self.tables@[t],
                ) by {
                    assert(s1.tables@[t].wf());
                    s1.tables@[t].lemma_advanced_refl();
                }
                assert(self.advanced_from(&s1));
                old(self).lemma_advanced_trans(&s1, self);
                let ts2 = self.tables@;
                assert forall|a: int, k: K| 0 <= a implies #[trigger] chain_slot(ts2, a, k)
                    == chain_slot(ts1, a, k) by {
                    if a <= root {
                        assert(chain_slot(ts2, root + 1, k) == chain_slot(ts1, root + 1, k));
                        assert(chain_slot(ts1, root, k) == chain_slot(ts1, root + 1, k));
                        assert(shell.local(k) is None);
                        assert(chain_slot(ts2, root, k) == chain_slot(ts1, root, k));
                        assert forall|t: int| a <= t < root implies (#[trigger] ts2[t]).local(k)
                            == ts1[t].local(k) by {}
                        lemma_fades_below(ts1, ts2, root, k, a);
                    }
                }
            }
        }
        proof {
            lemma_same_is_faded(ts, self.tables@);
            lemma_faded_is_upto(ts, self.tables@, root);
            self.lemma_view_kept(old(self));
        }
    }
}

} // verus!
