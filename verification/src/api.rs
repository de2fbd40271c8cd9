//! The map as its users see it: a map from keys to values, read and written
//! one key at a time.

use vstd::prelude::*;
use crate::chain::{chain_slot, fades, lemma_chain_slot_plain, lemma_skip};
use crate::map::NonBlockingHashMap;
use crate::slot::{Identity, Key, MatchingTypes, permits, StableHash, Value};

verus! {

/// Whether a write under the policy `matchingtype`, with `expval` as the expected value,
/// goes through when the map holds `current` for the key.
pub open spec fn allows<V>(matchingtype: MatchingTypes, expval: Option<Value<V>>, current: Option<V>) -> bool {
    match matchingtype {
        MatchingTypes::MatchAll => true,
        MatchingTypes::MatchAllNotTombStone => current is Some,
        MatchingTypes::MatchValue => match expval {
            Some(Value::Present(e)) => current == Some(e),
            Some(_) => current is None,
            None => false,
        },
        MatchingTypes::FromCopySlot => false,
    }
}

/// The entries after `putval` was written for `k`: a value is stored, a tombstone deletes.
pub open spec fn written<K, V>(m: Map<K, V>, k: K, putval: Value<V>) -> Map<K, V> {
    match putval {
        Value::Present(v) => m.insert(k, v),
        _ => m.remove(k),
    }
}

impl<K: StableHash, V: Identity> NonBlockingHashMap<K, V> {
    /// What a caller may hand to `put_if_match`: a value or a tombstone to write, a policy
    /// other than the one that migration keeps to itself, and an expected value where the
    /// policy compares with one.
    pub open spec fn may_put(putval: Value<V>, matchingtype: MatchingTypes, expval: Option<Value<V>>) -> bool {
        &&& putval is TombStone || putval is Present
        &&& matchingtype != MatchingTypes::FromCopySlot
        &&& matchingtype == MatchingTypes::MatchValue ==> expval is Some
        &&& expval is Some ==> !expval->Some_0.is_prime()
    }

    /// Writes `putval` for `key` if the policy permits it, and returns the value that the
    /// map held for the key: the value, or a cell without one. Where the root table is the
    /// only table and holds the key or has room for it, the call changes that table alone,
    /// as `put_lands` says; a tombstone for a key that the root neither holds nor lacks room
    /// for changes nothing.
    pub fn put_if_match(
        &mut self,
        key: K,
        putval: Value<V>,
        matchingtype: MatchingTypes,
        expval: Option<Value<V>>,
    ) -> (ret: Value<V>)
        requires
            old(self).wf(),
            Self::may_put(putval, matchingtype, expval),
        ensures
            final(self).wf(),
            final(self).advanced_from(old(self)),
            !ret.is_prime(),
            ret.live() == old(self)@.get(key),
            final(self)@ == (if allows(matchingtype, expval, old(self)@.get(key)) {
                written(old(self)@, key, putval)
            } else {
                old(self)@
            }),
            final(self).put_lands(old(self), old(self).kvs, key, putval, matchingtype, expval),
    {
        let table = self.get_table_nonatomic();
        self.put_if_match_to_kvs(table, key, putval, matchingtype, expval)
    }

    /// The put, started at the root table `kvs`.
    pub fn put_if_match_to_kvs(
        &mut self,
        kvs: usize,
        key: K,
        putval: Value<V>,
        matchingtype: MatchingTypes,
        expval: Option<Value<V>>,
    ) -> (ret: Value<V>)
        requires
            old(self).wf(),
            kvs == old(self).kvs,
            Self::may_put(putval, matchingtype, expval),
        ensures
            final(self).wf(),
            final(self).advanced_from(old(self)),
            !ret.is_prime(),
            ret.live() == old(self)@.get(key),
            final(self)@ == (if allows(matchingtype, expval, old(self)@.get(key)) {
                written(old(self)@, key, putval)
            } else {
                old(self)@
            }),
            final(self).put_lands(old(self), old(self).kvs, key, putval, matchingtype, expval),
    {
        let should_help = match matchingtype {
            MatchingTypes::MatchValue => !expval.unwrap().is_empty(),
            _ => true,
        };
        let ret = self.put_if_match_impl(
            kvs,
            Key::new(key),
            putval,
            matchingtype,
            expval,
            should_help,
        );
        proof {
            let found = old(self).entry(key);
            lemma_chain_slot_plain(old(self).tables@, kvs as int, key);
            let passes = allows(matchingtype, expval, old(self)@.get(key));
            assert(passes == permits(matchingtype, expval, found));
            let expected = if passes {
                written(old(self)@, key, putval)
            } else {
                old(self)@
            };
            assert forall|k: K| #[trigger] self.entry(k).live() == (if k == key {
                if passes {
                    putval.live()
                } else {
                    found.live()
                }
            } else {
                old(self).entry(k).live()
            }) by {
                lemma_skip(self.tables@, kvs as int, self.kvs as int, k);
                if k != key {
                    assert(fades(
                        chain_slot(old(self).tables@, kvs as int, k),
                        chain_slot(self.tables@, kvs as int, k),
                    ));
                }
            }
            assert forall|k: K| #[trigger] self@.contains_key(k) == expected.contains_key(k) by {
                assert(self.entry(k).live() is Some == self@.contains_key(k));
                assert(old(self).entry(k).live() is Some == old(self)@.contains_key(k));
            }
            assert forall|k: K| #[trigger] self@.contains_key(k) implies self@[k] == expected[k] by {
                assert(self.entry(k).live() == Some(self@[k]));
                assert(old(self).entry(k).live() is Some ==> old(self).entry(k).live() == Some(
                    old(self)@[k],
                ));
            }
            assert(self@ =~= expected);
        }
        ret
    }

    /// Stores `newval` for `key`. Returns the value that the map held for the key.
    pub fn put(&mut self, key: K, newval: V) -> (prior: Option<V>)
        requires
            old(self).wf(),
        ensures
            final(self).wf(),
            final(self).advanced_from(old(self)),
            prior == old(self)@.get(key),
            final(self)@ == old(self)@.insert(key, newval),
            final(self).put_lands(
                old(self),
                old(self).kvs,
                key,
                Value::Present(newval),
                MatchingTypes::MatchAll,
                None,
            ),
    {
        let ret = self.put_if_match(key, Value::new(newval), MatchingTypes::MatchAll, None);
        ret.to_live()
    }

    /// Stores `newval` for `key` if the map holds nothing for it. Returns the value that the
    /// map held for the key.
    pub fn put_if_absent(&mut self, key: K, newval: V) -> (prior: Option<V>)
        requires
            old(self).wf(),
        ensures
            final(self).wf(),
            final(self).advanced_from(old(self)),
            prior == old(self)@.get(key),
            final(self)@ == (if old(self)@.contains_key(key) {
                old(self)@
            } else {
                old(self)@.insert(key, newval)
            }),
            final(self).put_lands(
                old(self),
                old(self).kvs,
                key,
                Value::Present(newval),
                MatchingTypes::MatchValue,
                Some(Value::TombStone),
            ),
    {
        let ret = self.put_if_match(
            key,
            Value::new(newval),
            MatchingTypes::MatchValue,
            Some(Value::new_tombstone()),
        );
        ret.to_live()
    }

    /// Stores `newval` for `key` if the map holds a value for it. Returns the value that the
    /// map held for the key.
    pub fn replace(&mut self, key: K, newval: V) -> (prior: Option<V>)
        requires
            old(self).wf(),
        ensures
            final(self).wf(),
            final(self).advanced_from(old(self)),
            prior == old(self)@.get(key),
            final(self)@ == (if old(self)@.contains_key(key) {
                old(self)@.insert(key, newval)
            } else {
                old(self)@
            }),
            final(self).put_lands(
                old(self),
                old(self).kvs,
                key,
                Value::Present(newval),
                MatchingTypes::MatchAllNotTombStone,
                None,
            ),
    {
        let ret = self.put_if_match(
            key,
            Value::new(newval),
            MatchingTypes::MatchAllNotTombStone,
            None,
        );
        ret.to_live()
    }

    /// Stores `newval` for `key` if the map holds `oldval` for it. Returns whether it did.
    pub fn replace_if(&mut self, key: K, oldval: V, newval: V) -> (replaced: bool)
        requires
            old(self).wf(),
        ensures
            final(self).wf(),
            final(self).advanced_from(old(self)),
            replaced == (old(self)@.get(key) == Some(oldval)),
            final(self)@ == (if replaced {
                old(self)@.insert(key, newval)
            } else {
                old(self)@
            }),
            final(self).put_lands(
                old(self),
                old(self).kvs,
                key,
                Value::Present(newval),
                MatchingTypes::MatchValue,
                Some(Value::Present(oldval)),
            ),
    {
        let ret = self.put_if_match(
            key,
            Value::new(newval),
            MatchingTypes::MatchValue,
            Some(Value::new(oldval)),
        );
        ret == Value::new(oldval)
    }

    /// Deletes what the map holds for `key`. Returns the value that the map held for the key.
    pub fn remove(&mut self, key: K) -> (prior: Option<V>)
        requires
            old(self).wf(),
        ensures
            final(self).wf(),
            final(self).advanced_from(old(self)),
            prior == old(self)@.get(key),
            final(self)@ == old(self)@.remove(key),
            final(self).put_lands(
                old(self),
                old(self).kvs,
                key,
                Value::TombStone,
                MatchingTypes::MatchAll,
                None,
            ),
    {
        let ret = self.put_if_match(key, Value::new_tombstone(), MatchingTypes::MatchAll, None);
        ret.to_live()
    }

    /// Deletes what the map holds for `key` if that is `oldval`. Returns whether it did.
    pub fn remove_if(&mut self, key: K, oldval: V) -> (removed: bool)
        requires
            old(self).wf(),
        ensures
            final(self).wf(),
            final(self).advanced_from(old(self)),
            removed == (old(self)@.get(key) == Some(oldval)),
            final(self)@ == (if removed {
                old(self)@.remove(key)
            } else {
                old(self)@
            }),
            final(self).put_lands(
                old(self),
                old(self).kvs,
                key,
                Value::TombStone,
                MatchingTypes::MatchValue,
                Some(Value::Present(oldval)),
            ),
    {
        let ret = self.put_if_match(
            key,
            Value::new_tombstone(),
            MatchingTypes::MatchValue,
            Some(Value::new(oldval)),
        );
        ret == Value::new(oldval)
    }

    /// The value that the map holds for `key`. The entries stay as they are. The slots of
    /// the key that a migration has frozen, or that hold no value in a table under
    /// migration, are moved on; no slot of another key is touched.
    pub fn get(&mut self, key: K) -> (found: Option<V>)
        requires
            old(self).wf(),
        ensures
            final(self).wf(),
            final(self).advanced_from(old(self)),
            final(self).touched_only(old(self), key),
            old(self).get_is_quiet(old(self).kvs, key) ==> final(self).same_state(old(self)),
            found == old(self)@.get(key),
            final(self)@ == old(self)@,
    {
        let kvs = self.get_table_nonatomic();
        let cell = Key::new(key);
        let fullhash = cell.hash();
        let found = self.get_impl(kvs, cell, fullhash);
        proof {
            self.lemma_entries_kept(old(self), kvs);
            assert(old(self).entry(key).live() is Some == old(self)@.contains_key(key));
            assert forall|j: int| self.kvs <= j < self.tables@.len() implies (
            #[trigger] self.tables@[j]).debt() == 0 by {
                if j < old(self).tables@.len() {
                    assert(old(self).tables@[j].debt() == 0);
                }
            }
        }
        found
    }
}

} // verus!
