//! One table: key cells, value cells and cached hashes, side by side, with
//! the control block that a migration needs.
//!
//! A key is looked for from its home slot onward, through at most
//! `REPROBE_LIMIT` slots. A key cell never goes back to empty, so a key that
//! was placed behind a run of occupied cells is still found behind it.

use vstd::prelude::*;
use vstd::arithmetic::power2::is_pow2;
use crate::count::{count_upto, lemma_count_bounds, lemma_count_full, lemma_count_none};
use crate::hashing::full_hash;
use crate::slot::{fast_keyeq, Key, StableHash, Value};

verus! {

/// How many slots a lookup or an insert examines before it gives the table up.
pub const REPROBE_LIMIT: usize = 10;

/// The size of the smallest table.
pub const MIN_SIZE: usize = 8;

/// The largest table: growth stops here, so that a cursor that has gone round a table a few
/// times is still a number.
pub const MAX_SIZE: usize = 0x1000_0000;

/// The control block of a table: what a migration out of it needs.
pub struct CHM {
    /// The successor table, by its number in the map's chain.
    pub newkvs: Option<usize>,
    /// Live entries, as far as this table knows.
    pub size: usize,
    /// Key cells that carry a key.
    pub slots: usize,
    /// Slots whose migration is finished and credited.
    pub copy_done: usize,
    /// The cursor from which helpers reserve their next chunk of slots.
    pub copy_idx: usize,
    pub has_newkvs: bool,
}

impl CHM {
    /// The control block of a table in which nothing has happened.
    pub open spec fn fresh() -> CHM {
        CHM { newkvs: None, size: 0, slots: 0, copy_done: 0, copy_idx: 0, has_newkvs: false }
    }

    /// The control block of a new table.
    pub fn new() -> (chm: CHM)
        ensures
            chm == CHM::fresh(),
    {
        CHM { newkvs: None, size: 0, slots: 0, copy_done: 0, copy_idx: 0, has_newkvs: false }
    }

    /// The successor table, if one is recorded.
    pub fn get_newkvs_nonatomic(&self) -> (newkvs: Option<usize>)
        ensures
            newkvs == self.newkvs,
    {
        self.newkvs
    }

    /// Whether a successor table is recorded.
    pub fn has_newkvs(&self) -> (b: bool)
        requires
            self.has_newkvs == self.newkvs.is_some(),
        ensures
            b == self.newkvs.is_some(),
    {
        self.has_newkvs
    }
}

/// A table.
pub struct KVs<K, V> {
    pub ks: Vec<Key<K>>,
    pub vs: Vec<Value<V>>,
    pub chm: CHM,
    pub hashes: Vec<u64>,
}

impl<K, V> KVs<K, V> {
    /// A table of `n` slots in which nothing was ever written.
    pub open spec fn is_fresh(&self, n: int) -> bool {
        &&& self.ks@.len() == n
        &&& self.vs@.len() == n
        &&& self.hashes@.len() == n
        &&& self.chm == CHM::fresh()
        &&& forall|i: int| 0 <= i < n ==> #[trigger] self.ks@[i] == Key::<K>::Empty
        &&& forall|i: int| 0 <= i < n ==> #[trigger] self.vs@[i] == Value::<V>::Empty
        &&& forall|i: int| 0 <= i < n ==> #[trigger] self.hashes@[i] == 0
    }

    /// A new table of `table_size` slots.
    pub fn new(table_size: usize) -> (kvs: KVs<K, V>)
        ensures
            kvs.is_fresh(table_size as int),
    {
        let mut ks: Vec<Key<K>> = Vec::new();
        let mut vs: Vec<Value<V>> = Vec::new();
        let mut hashes: Vec<u64> = Vec::new();
        let mut i: usize = 0;
        while i < table_size
            invariant
                i <= table_size,
                ks@.len() == i,
                vs@.len() == i,
                hashes@.len() == i,
                forall|x: int| 0 <= x < i ==> #[trigger] ks@[x] == Key::<K>::Empty,
                forall|x: int| 0 <= x < i ==> #[trigger] vs@[x] == Value::<V>::Empty,
                forall|x: int| 0 <= x < i ==> #[trigger] hashes@[x] == 0,
            decreases table_size - i,
        {
            ks.push(Key::new_empty());
            vs.push(Value::new_empty());
            hashes.push(0);
            i += 1;
        }
        KVs { ks, vs, chm: CHM::new(), hashes }
    }

    /// The key cell of slot `idx`.
    pub fn get_key_nonatomic_at(&self, idx: usize) -> (k: &Key<K>)
        requires
            idx < self.ks@.len(),
        ensures
            *k == self.ks@[idx as int],
    {
        &self.ks[idx]
    }

    /// The value cell of slot `idx`.
    pub fn get_value_nonatomic_at(&self, idx: usize) -> (v: &Value<V>)
        requires
            idx < self.vs@.len(),
        ensures
            *v == self.vs@[idx as int],
    {
        &self.vs[idx]
    }

    /// Whether an insert that has missed `reprobe_cnt` times may give the table up for full.
    pub fn table_full(&self, reprobe_cnt: usize) -> (full: bool)
        ensures
            full == (reprobe_cnt >= REPROBE_LIMIT && self.chm.slots >= self.ks@.len()),
    {
        reprobe_cnt >= REPROBE_LIMIT && self.chm.slots >= self.len()
    }

    /// A bound on the misses of any search in this table: four times the reprobe limit and
    /// the number of slots together.
    pub fn reprobe_limit(&self) -> (limit: usize)
        requires
            (REPROBE_LIMIT + self.ks@.len()) * 4 <= usize::MAX,
        ensures
            limit == (REPROBE_LIMIT + self.ks@.len()) * 4,
    {
        (REPROBE_LIMIT + self.len()) * 4
    }

    /// The number of slots.
    pub fn len(&self) -> (n: usize)
        ensures
            n == self.ks@.len(),
    {
        self.ks.len()
    }
}

/// How a search for a key ended.
#[derive(Clone, Copy, Debug, PartialEq, Eq, Structural)]
pub enum Probe {
    /// At an empty slot: the table does not hold the key.
    Vacant,
    /// At the slot that holds the key.
    Found,
    /// At the reprobe limit: the table neither holds the key nor has room for it.
    Saturated,
}

impl<K: StableHash, V: Copy> KVs<K, V> {
    /// The number of slots.
    pub open spec fn cap(&self) -> int {
        self.ks@.len() as int
    }

    /// The slot at which the search for `k` starts.
    pub open spec fn home(&self, k: K) -> int {
        (full_hash(k) as int) % self.cap()
    }

    /// The slot that the search for `k` examines after `d` misses.
    pub open spec fn probe(&self, k: K, d: int) -> int {
        (self.home(k) + d) % self.cap()
    }

    /// How many misses the search for `k` needs before it first examines slot `i`.
    pub open spec fn dist(&self, k: K, i: int) -> int {
        (i - self.home(k)) % self.cap()
    }

    /// The first `d` slots that the search for `k` examines are all occupied.
    pub open spec fn reach(&self, k: K, d: int) -> bool {
        forall|e: int| 0 <= e < d ==> !(self.ks@[#[trigger] self.probe(k, e)] is Empty)
    }

    /// The first `d` slots that the search for `k` examines are occupied, and none holds `k`.
    pub open spec fn missed(&self, k: K, d: int) -> bool {
        forall|e: int|
            0 <= e < d ==> {
                &&& !(self.ks@[#[trigger] self.probe(k, e)] is Empty)
                &&& self.ks@[self.probe(k, e)] != Key::Present(k)
            }
    }

    /// No slot within the reach of a search for `k` is empty.
    pub open spec fn window_full(&self, k: K) -> bool {
        self.reach(k, REPROBE_LIMIT as int)
    }

    /// Slot `i` is where a search for `k` arrives: within the limit, behind occupied slots only.
    pub open spec fn placed(&self, i: int, k: K) -> bool {
        &&& self.dist(k, i) < REPROBE_LIMIT
        &&& self.reach(k, self.dist(k, i))
    }

    /// Whether some slot holds `k`.
    pub open spec fn has_key(&self, k: K) -> bool {
        exists|i: int| 0 <= i < self.cap() && #[trigger] self.ks@[i] == Key::Present(k)
    }

    /// The slot that holds `k`, where one does.
    pub open spec fn slot_of(&self, k: K) -> int {
        choose|i: int| 0 <= i < self.cap() && #[trigger] self.ks@[i] == Key::Present(k)
    }

    /// The value cell that goes with `k` in this table, if the table holds `k`.
    pub open spec fn local(&self, k: K) -> Option<Value<V>> {
        if self.has_key(k) {
            Some(self.vs@[self.slot_of(k)])
        } else {
            None
        }
    }

    /// A search for `k` does not end in this table: its value is frozen here, or the table
    /// has no room for it.
    pub open spec fn passes(&self, k: K) -> bool {
        match self.local(k) {
            Some(v) => v.is_prime(),
            None => self.window_full(k),
        }
    }

    /// Whether the table holds `k` or has room for it.
    pub open spec fn fits(&self, k: K) -> bool {
        self.has_key(k) || !self.window_full(k)
    }

    /// How many misses a search for `k` makes before it meets an empty slot, where it
    /// meets one within the limit.
    pub open spec fn vacancy(&self, k: K) -> int {
        choose|d: int|
            0 <= d < REPROBE_LIMIT && self.missed(k, d) && self.ks@[self.probe(k, d)] is Empty
    }

    /// The slot at which a put of `k` lands in a table that holds `k` or has room for it:
    /// the slot that holds `k`, or else the first empty slot that a search for `k` meets.
    pub open spec fn landing(&self, k: K) -> int {
        if self.has_key(k) {
            self.slot_of(k)
        } else {
            self.probe(k, self.vacancy(k))
        }
    }

    /// The value cell that a put of `k` finds in this table: that of the slot of `k`, or
    /// an empty one.
    pub open spec fn held(&self, k: K) -> Value<V> {
        match self.local(k) {
            Some(v) => v,
            None => Value::Empty,
        }
    }

    /// `after` is this table, which holds `k` or has room for it, after a put of `putval`
    /// for `k` that writes if `writes`. A tombstone for a key that the table does not hold
    /// changes nothing. Else the landing slot holds the key and its full hash, and one
    /// more key cell is counted as used if the key is new; the value cell of the slot holds
    /// `putval` if the put writes, and the size goes up by one where a value takes the
    /// place of none, and down by one where a tombstone takes the place of a value. Every
    /// other cell and counter is as it was.
    pub open spec fn after_put(&self, after: KVs<K, V>, k: K, putval: Value<V>, writes: bool) -> bool {
        let i = self.landing(k);
        if !self.has_key(k) && putval is TombStone {
            self.same_cells(after) && after.chm == self.chm
        } else {
            &&& 0 <= i < self.cap()
            &&& after.has_key(k)
            &&& after.landing(k) == i
            &&& after.held(k) == after.vs@[i]
            &&& after.ks@ == self.ks@.update(i, Key::Present(k))
            &&& after.hashes@ == self.hashes@.update(i, full_hash(k))
            &&& after.vs@ == if writes {
                self.vs@.update(i, putval)
            } else {
                self.vs@
            }
            &&& after.chm == (CHM {
                slots: (self.chm.slots + if self.has_key(k) {
                    0int
                } else {
                    1int
                }) as usize,
                size: (self.chm.size + if !writes {
                    0int
                } else {
                    (if putval is Present {
                        1int
                    } else {
                        0int
                    }) - (if self.held(k) is Present {
                        1int
                    } else {
                        0int
                    })
                }) as usize,
                ..self.chm
            })
        }
    }

    /// `after` has the cells of this table, and maybe another control block.
    pub open spec fn same_cells(&self, after: KVs<K, V>) -> bool {
        &&& after.ks@ == self.ks@
        &&& after.vs@ == self.vs@
        &&& after.hashes@ == self.hashes@
    }

    /// Slot `i` has reached the end of its migration: sealed while empty, or moved out.
    pub open spec fn terminal(&self, i: int) -> bool {
        self.ks@[i] is TombStone || self.vs@[i] is TombPrime
    }

    /// Whether every slot has been migrated.
    pub open spec fn all_terminal(&self) -> bool {
        forall|i: int| 0 <= i < self.cap() ==> #[trigger] self.terminal(i)
    }

    /// Whether no slot carries a value, live or frozen: a migration out of the table has
    /// nothing to forward.
    pub open spec fn nothing_to_forward(&self) -> bool {
        forall|i: int| 0 <= i < self.cap() ==> (#[trigger] self.vs@[i]).payload() is None
    }

    /// Whether no slot has been touched by a migration.
    pub open spec fn untouched(&self) -> bool {
        forall|i: int|
            0 <= i < self.cap() ==> !(#[trigger] self.ks@[i] is TombStone) && !self.vs@[i].is_prime()
    }

    /// Whether the key cell of a slot carries a key.
    pub open spec fn is_used(&self) -> spec_fn(int) -> bool {
        |i: int| self.ks@[i] is Present
    }

    /// Whether the value cell of a slot carries a value that is not frozen.
    pub open spec fn is_live(&self) -> spec_fn(int) -> bool {
        |i: int| self.vs@[i] is Present
    }

    /// Whether the value cell holds, or held when it was frozen, something other than a
    /// plain tombstone.
    pub open spec fn is_filled(&self) -> spec_fn(int) -> bool {
        |i: int| !(self.vs@[i] is Empty) && !(self.vs@[i] is TombStone)
    }

    /// Whether a slot is terminal.
    pub open spec fn is_terminal(&self) -> spec_fn(int) -> bool {
        |i: int| self.terminal(i)
    }

    /// How many key cells carry a key.
    pub open spec fn used_count(&self) -> int {
        count_upto(self.cap(), self.is_used())
    }

    /// How many value cells carry a value that is not frozen.
    pub open spec fn live_count(&self) -> int {
        count_upto(self.cap(), self.is_live())
    }

    /// How many value cells hold something other than nothing or a plain tombstone.
    pub open spec fn filled_count(&self) -> int {
        count_upto(self.cap(), self.is_filled())
    }

    /// How many slots are terminal.
    pub open spec fn terminal_count(&self) -> int {
        count_upto(self.cap(), self.is_terminal())
    }

    /// Terminal slots that no helper has yet credited to `copy_done`.
    pub open spec fn debt(&self) -> int {
        self.terminal_count() - self.chm.copy_done
    }

    /// The table has a size that a table may have, its three arrays are of that size, and
    /// its cursor has not gone round more than three times.
    pub open spec fn shape(&self) -> bool {
        &&& MIN_SIZE <= self.cap() <= MAX_SIZE
        &&& is_pow2(self.cap())
        &&& self.vs@.len() == self.cap()
        &&& self.hashes@.len() == self.cap()
        &&& self.chm.has_newkvs == self.chm.newkvs.is_some()
        &&& self.chm.copy_idx <= 3 * self.cap()
    }

    /// A key cell that carries no key has an empty value cell.
    pub open spec fn paired(&self) -> bool {
        forall|i: int|
            0 <= i < self.cap() && !(#[trigger] self.ks@[i] is Present) ==> self.vs@[i] is Empty
    }

    /// A key is stored with its full hash, where a search for it arrives.
    pub open spec fn settled(&self) -> bool {
        forall|i: int|
            0 <= i < self.cap() && #[trigger] self.ks@[i] is Present ==> {
                &&& self.hashes@[i] == full_hash(self.ks@[i]->Present_0)
                &&& self.placed(i, self.ks@[i]->Present_0)
            }
    }

    /// No key is held by two slots.
    pub open spec fn unique(&self) -> bool {
        forall|i: int, j: int|
            0 <= i < self.cap() && 0 <= j < self.cap() && #[trigger] self.ks@[i] is Present
                && self.ks@[i] == #[trigger] self.ks@[j] ==> i == j
    }

    /// The counters count what they are for: `slots` the keys, `size` no fewer than the live
    /// values and no more than the values that were ever frozen or are live, and
    /// `copy_done` no more than the terminal slots.
    pub open spec fn counted(&self) -> bool {
        &&& self.chm.slots == self.used_count()
        &&& self.live_count() <= self.chm.size <= self.filled_count()
        &&& 0 <= self.debt()
    }

    /// The table's invariant.
    pub open spec fn wf(&self) -> bool {
        &&& self.shape()
        &&& self.paired()
        &&& self.settled()
        &&& self.unique()
        &&& self.counted()
    }

    /// Searches for `key` from its home slot on, through at most `REPROBE_LIMIT` slots.
    /// Returns how the search ended, at which slot, and after how many misses.
    pub fn find(&self, key: &Key<K>, fullhash: u64) -> (r: (Probe, usize, usize))
        requires
            self.wf(),
            *key is Present,
            fullhash == full_hash(key->Present_0),
        ensures
            r.0 == Probe::Saturated ==> self.missed(key->Present_0, REPROBE_LIMIT as int),
            r.0 != Probe::Saturated ==> {
                &&& r.2 < REPROBE_LIMIT
                &&& r.1 < self.cap()
                &&& r.1 == self.probe(key->Present_0, r.2 as int)
                &&& self.missed(key->Present_0, r.2 as int)
            },
            r.0 == Probe::Vacant ==> self.ks@[r.1 as int] is Empty,
            r.0 == Probe::Found ==> self.ks@[r.1 as int] == *key,
            (r.0 == Probe::Found) == self.has_key(key->Present_0),
            (r.0 == Probe::Saturated) == !self.fits(key->Present_0),
            r.0 != Probe::Saturated ==> r.1 == self.landing(key->Present_0),
    {
        let ghost k = key->Present_0;
        let len = self.ks.len();
        let mut idx: usize = (fullhash % (len as u64)) as usize;
        let mut reprobe_cnt: usize = 0;
        proof {
            self.lemma_probe_next(k, 0);
        }
        loop
            invariant
                self.wf(),
                *key == Key::Present(k),
                fullhash == full_hash(k),
                len == self.cap(),
                reprobe_cnt < REPROBE_LIMIT,
                idx < len,
                idx == self.probe(k, reprobe_cnt as int),
                self.missed(k, reprobe_cnt as int),
            decreases REPROBE_LIMIT - reprobe_cnt,
        {
            let slot = &self.ks[idx];
            if slot.is_empty() {
                proof {
                    self.lemma_landing_vacant(k, reprobe_cnt as int);
                }
                return (Probe::Vacant, idx, reprobe_cnt);
            }
            if fast_keyeq(slot, self.hashes[idx], key, fullhash) {
                proof {
                    self.lemma_landing_found(idx as int, k);
                }
                return (Probe::Found, idx, reprobe_cnt);
            }
            proof {
                assert(self.ks@[idx as int] != Key::Present(k));
                self.lemma_probe_next(k, reprobe_cnt as int);
            }
            reprobe_cnt += 1;
            if reprobe_cnt >= REPROBE_LIMIT {
                proof {
                    self.lemma_absent_at_limit(k);
                }
                return (Probe::Saturated, idx, reprobe_cnt);
            }
            idx = if idx + 1 == len {
                0
            } else {
                idx + 1
            };
        }
    }

    /// A search examines slots of the table.
    pub proof fn lemma_probe_range(&self, k: K, d: int)
        requires
            self.cap() > 0,
        ensures
            0 <= self.probe(k, d) < self.cap(),
            0 <= self.home(k) < self.cap(),
    {
    }

    /// A search goes from a slot to the next, and from the last slot to the first.
    pub proof fn lemma_probe_next(&self, k: K, d: int)
        requires
            self.cap() > 0,
            0 <= d,
        ensures
            self.probe(k, d + 1) == if self.probe(k, d) + 1 == self.cap() {
                0
            } else {
                self.probe(k, d) + 1
            },
            self.probe(k, 0) == self.home(k),
    {
        let c = self.cap();
        let h = self.home(k);
        vstd::arithmetic::div_mod::lemma_add_mod_noop(h + d, 1, c);
        vstd::arithmetic::div_mod::lemma_small_mod(h as nat, c as nat);
        if c == 1 {
        } else {
            vstd::arithmetic::div_mod::lemma_small_mod(1, c as nat);
            if self.probe(k, d) + 1 == c {
                vstd::arithmetic::div_mod::lemma_mod_self_0(c);
            } else {
                vstd::arithmetic::div_mod::lemma_small_mod((self.probe(k, d) + 1) as nat, c as nat);
            }
        }
    }

    /// The search for `k` arrives at slot `i` after `dist(k, i)` misses, and not before.
    pub proof fn lemma_dist(&self, k: K, i: int)
        requires
            0 <= i < self.cap(),
        ensures
            0 <= self.dist(k, i) < self.cap(),
            self.probe(k, self.dist(k, i)) == i,
    {
        let c = self.cap();
        let h = self.home(k);
        vstd::arithmetic::div_mod::lemma_add_mod_noop_right(h, i - h, c);
        vstd::arithmetic::div_mod::lemma_small_mod(i as nat, c as nat);
    }

    /// The slot that the search examines after `d` misses is first examined after
    /// `d % cap` misses.
    pub proof fn lemma_dist_of_probe(&self, k: K, d: int)
        requires
            self.cap() > 0,
            0 <= d,
        ensures
            self.dist(k, self.probe(k, d)) == d % self.cap(),
            0 <= d % self.cap() <= d,
    {
        let c = self.cap();
        let h = self.home(k);
        vstd::arithmetic::div_mod::lemma_sub_mod_noop(h + d, h, c);
        vstd::arithmetic::div_mod::lemma_small_mod(h as nat, c as nat);
        vstd::arithmetic::div_mod::lemma_mod_twice(h + d, c);
        assert((self.probe(k, d) - h) % c == ((h + d) % c - h % c) % c);
        assert(((h + d) - h) % c == d % c);
        vstd::arithmetic::div_mod::lemma_mod_decreases(d as nat, c as nat);
    }

    /// Where `k` sits in slot `i`, slot `i` is the one slot of `k`.
    pub proof fn lemma_local_at(&self, i: int, k: K)
        requires
            self.unique(),
            0 <= i < self.cap(),
            self.ks@[i] == Key::Present(k),
        ensures
            self.has_key(k),
            self.slot_of(k) == i,
            self.local(k) == Some(self.vs@[i]),
    {
        let j = self.slot_of(k);
        assert(self.ks@[i] is Present);
        assert(self.ks@[i] == self.ks@[j]);
    }

    /// The empty slot that a search for `k` meets is the slot at which a put of `k` lands.
    pub proof fn lemma_landing_vacant(&self, k: K, d: int)
        requires
            self.wf(),
            0 <= d < REPROBE_LIMIT,
            self.missed(k, d),
            self.ks@[self.probe(k, d)] is Empty,
        ensures
            !self.has_key(k),
            self.fits(k),
            self.vacancy(k) == d,
            self.landing(k) == self.probe(k, d),
            0 <= self.landing(k) < self.cap(),
            self.held(k) is Empty,
    {
        self.lemma_absent_at_empty(k, d);
        let c = self.vacancy(k);
        if c < d {
            assert(!(self.ks@[self.probe(k, c)] is Empty));
        } else if d < c {
            assert(!(self.ks@[self.probe(k, d)] is Empty));
        }
        if self.window_full(k) {
            assert(!(self.ks@[self.probe(k, d)] is Empty));
        }
    }

    /// The slot that holds `k` is the slot at which a put of `k` lands.
    pub proof fn lemma_landing_found(&self, i: int, k: K)
        requires
            self.unique(),
            0 <= i < self.cap(),
            self.ks@[i] == Key::Present(k),
        ensures
            self.has_key(k),
            self.fits(k),
            self.landing(k) == i,
            self.held(k) == self.vs@[i],
    {
        self.lemma_local_at(i, k);
    }

    /// Behind `d` misses and an empty slot there is no `k`.
    pub proof fn lemma_absent_at_empty(&self, k: K, d: int)
        requires
            self.wf(),
            0 <= d < REPROBE_LIMIT,
            self.missed(k, d),
            self.ks@[self.probe(k, d)] is Empty,
        ensures
            !self.has_key(k),
    {
        if self.has_key(k) {
            let i = self.slot_of(k);
            assert(self.ks@[i] is Present);
            self.lemma_dist(k, i);
            let di = self.dist(k, i);
            assert(self.placed(i, k));
            if di < d {
                assert(self.ks@[self.probe(k, di)] != Key::Present(k));
            } else if di == d {
            } else {
                assert(!(self.ks@[self.probe(k, d)] is Empty));
            }
        }
    }

    /// Behind a full run of misses there is no `k`, and no room for it.
    pub proof fn lemma_absent_at_limit(&self, k: K)
        requires
            self.wf(),
            self.missed(k, REPROBE_LIMIT as int),
        ensures
            !self.has_key(k),
            self.window_full(k),
            self.passes(k),
    {
        if self.has_key(k) {
            let i = self.slot_of(k);
            assert(self.ks@[i] is Present);
            self.lemma_dist(k, i);
            let di = self.dist(k, i);
            assert(self.placed(i, k));
            assert(self.ks@[self.probe(k, di)] != Key::Present(k));
        }
        assert forall|e: int| 0 <= e < REPROBE_LIMIT implies !(self.ks@[#[trigger] self.probe(
            k,
            e,
        )] is Empty) by {}
    }

    /// A table in which nothing was written is well formed, if its size is one that a table
    /// may have.
    pub proof fn lemma_fresh_wf(&self)
        requires
            self.is_fresh(self.cap()),
            MIN_SIZE <= self.cap() <= MAX_SIZE,
            is_pow2(self.cap()),
        ensures
            self.wf(),
            self.untouched(),
            self.debt() == 0,
            forall|k: K| !self.has_key(k),
            forall|k: K| #[trigger] self.fits(k),
    {
        lemma_count_none(self.cap(), self.is_used());
        lemma_count_none(self.cap(), self.is_live());
        lemma_count_none(
            self.cap(),
            self.is_filled(),
        );
        lemma_count_none(self.cap(), self.is_terminal());
        assert forall|k: K| !self.has_key(k) by {
            if self.has_key(k) {
                let i = self.slot_of(k);
                assert(self.ks@[i] == Key::<K>::Empty);
            }
        }
        assert forall|k: K| #[trigger] self.fits(k) by {
            self.lemma_probe_range(k, 0);
            assert(self.ks@[self.probe(k, 0)] is Empty);
        }
    }

    /// The terminal slots are all the slots exactly when as many are counted.
    pub proof fn lemma_all_terminal(&self)
        ensures
            self.all_terminal() <==> self.terminal_count() == self.cap(),
            0 <= self.terminal_count() <= self.cap(),
    {
        lemma_count_full(self.cap(), self.is_terminal());
        lemma_count_bounds(self.cap(), self.is_terminal());
        if self.all_terminal() {
            assert forall|i: int| 0 <= i < self.cap() implies #[trigger] (self.is_terminal())(i) by {
                assert(self.terminal(i));
            }
        }
        if self.terminal_count() == self.cap() {
            assert forall|i: int| 0 <= i < self.cap() implies #[trigger] self.terminal(i) by {
                assert((self.is_terminal())(i));
            }
        }
    }

    /// A table whose slots were found terminal one after another, through a full round, has
    /// terminal slots only.
    pub proof fn lemma_round(&self, start: int, end: int)
        requires
            self.cap() > 0,
            0 <= start,
            end >= start + self.cap(),
            forall|x: int| start <= x < end ==> self.terminal(#[trigger] (x % self.cap())),
        ensures
            self.all_terminal(),
    {
        let c = self.cap();
        assert forall|i: int| 0 <= i < c implies #[trigger] self.terminal(i) by {
            let x = start + (i - start) % c;
            vstd::arithmetic::div_mod::lemma_add_mod_noop_right(start, i - start, c);
            vstd::arithmetic::div_mod::lemma_small_mod(i as nat, c as nat);
            assert(x % c == i);
            assert(self.terminal(x % c));
        }
    }

    /// Whether a table holds a key or has room for it depends on its key cells alone.
    pub proof fn lemma_same_keys(&self, after: KVs<K, V>, k: K)
        requires
            after.ks@ == self.ks@,
        ensures
            after.has_key(k) == self.has_key(k),
            after.window_full(k) == self.window_full(k),
            after.fits(k) == self.fits(k),
    {
        if self.window_full(k) {
            assert forall|e: int| 0 <= e < REPROBE_LIMIT implies !(after.ks@[#[trigger] after.probe(
                k,
                e,
            )] is Empty) by {
                assert(self.probe(k, e) == after.probe(k, e));
            }
        }
        if after.window_full(k) {
            assert forall|e: int| 0 <= e < REPROBE_LIMIT implies !(self.ks@[#[trigger] self.probe(
                k,
                e,
            )] is Empty) by {
                assert(self.probe(k, e) == after.probe(k, e));
            }
        }
    }
}

} // verus!
