//! The map: a chain of tables, its invariant, and how it is made and read.

use vstd::prelude::*;
use crate::chain::{
    chain_inv, chain_slot, faded, faded_upto, fades, lemma_chain_slot_absent, lemma_faded_is_upto,
    lemma_faded_upto_shrink, lemma_skip, link_of, no_debt,
};
use crate::clock::now_seconds;
use crate::policy::{
    lemma_round_up, lemma_round_up_within, MAX_INITIAL_SIZE, round_up, round_up_spec,
};
use crate::slot::{Identity, Key, StableHash, Value};
use crate::states::slot_advances;
use crate::table::{KVs, MAX_SIZE, MIN_SIZE};

verus! {

/// The map.
pub struct NonBlockingHashMap<K, V> {
    /// Every table that the map has had, each followed by its successor. Tables before the
    /// root hold nothing any more.
    pub tables: Vec<KVs<K, V>>,
    /// The root: the number of the table at which every operation starts.
    pub kvs: usize,
    /// When the root last moved on, in seconds.
    pub last_resize: i64,
}

impl<K: StableHash, V: Identity> View for NonBlockingHashMap<K, V> {
    type V = Map<K, V>;

    /// The entries of the map.
    open spec fn view(&self) -> Map<K, V> {
        Map::new(|k: K| self.entry(k) is Present, |k: K| self.entry(k)->Present_0)
    }
}

/// The number of slots of the root table of a map that is made without a size.
pub const DEFAULT_SIZE: usize = 16;

/// The number of slots of the table that a new map gets when it is asked for `initial_sz`.
pub open spec fn initial_slots(initial_sz: int) -> int {
    4 * round_up_spec(
        if initial_sz > MAX_INITIAL_SIZE {
            MAX_INITIAL_SIZE as int
        } else {
            initial_sz
        },
    )
}

impl<K: StableHash, V: Identity> NonBlockingHashMap<K, V> {
    /// What the chain holds for `k`, read from the root.
    pub open spec fn entry(&self, k: K) -> Value<V> {
        chain_slot(self.tables@, self.kvs as int, k)
    }

    /// The invariant that holds between any two transitions: that of the chain, and that
    /// the tables are no more than can be numbered.
    pub open spec fn inv(&self) -> bool {
        &&& chain_inv(self.tables@, self.kvs as int)
        &&& self.tables@.len() == self.tables.len()
    }

    /// The invariant that holds between any two operations: that which holds between
    /// transitions, and that every slot whose migration is finished has been credited.
    pub open spec fn wf(&self) -> bool {
        &&& self.inv()
        &&& no_debt(self.tables@, self.kvs as int)
    }

    /// Whether `j` is a table of the chain that has not been released.
    pub open spec fn has_table(&self, j: usize) -> bool {
        self.kvs <= j < self.tables@.len()
    }

    /// Whether the two maps are in the same state.
    pub open spec fn same_state(&self, other: &Self) -> bool {
        &&& self.tables@ == other.tables@
        &&& self.kvs == other.kvs
        &&& self.last_resize == other.last_resize
    }

    /// This map is `before` after a transition of slot `idx` of table `j`.
    pub open spec fn stepped(&self, before: &Self, j: usize, idx: usize) -> bool {
        &&& self.tables@ == before.tables@.update(j as int, self.tables@[j as int])
        &&& before.tables@[j as int].steps_to(self.tables@[j as int], idx as int)
        &&& self.kvs == before.kvs
        &&& self.last_resize == before.last_resize
    }

    /// This map is `before` after steps that left alone the root, unless the root is table
    /// `j`, and every table before `j`, kept each table's size and cursor, and added `owed`
    /// to what table `j` owes in credit and nothing to what any other table owes.
    pub open spec fn walked(&self, before: &Self, j: usize, owed: int) -> bool {
        &&& self.kvs >= before.kvs
        &&& before.kvs < j ==> self.kvs == before.kvs
        &&& self.tables@.len() >= before.tables@.len()
        &&& forall|t: int| self.kvs <= t < j ==> #[trigger] self.tables@[t] == before.tables@[t]
        &&& forall|t: int|
            self.kvs <= t < self.tables@.len() ==> (#[trigger] self.tables@[t]).debt() == if t
                < before.tables@.len() {
                before.tables@[t].debt() + if t == j {
                    owed
                } else {
                    0
                }
            } else {
                0
            }
        &&& forall|t: int|
            self.kvs <= t < before.tables@.len() ==> {
                &&& (#[trigger] self.tables@[t]).chm.copy_idx == before.tables@[t].chm.copy_idx
                &&& self.tables@[t].cap() == before.tables@[t].cap()
            }
    }

    /// This map is `before` after steps that left alone every slot that holds another key
    /// than `k`, or none: no cell of such a slot has changed in any table that is not
    /// released.
    pub open spec fn touched_only(&self, before: &Self, k: K) -> bool {
        forall|t: int, i: int|
            #![trigger self.tables@[t].ks@[i]]
            self.kvs <= t < before.tables@.len() && 0 <= i < before.tables@[t].cap()
                && before.tables@[t].ks@[i] != Key::Present(k) && self.tables@[t].ks@[i]
                != Key::Present(k) ==> {
                &&& self.tables@[t].ks@[i] == before.tables@[t].ks@[i]
                &&& self.tables@[t].vs@[i] == before.tables@[t].vs@[i]
            }
    }

    /// A state leaves alone every slot of itself.
    pub proof fn lemma_touched_refl(&self, k: K)
        ensures
            self.touched_only(self, k),
    {
    }

    /// Steps that leave alone the slots of other keys than `k`, and again, leave them alone.
    pub proof fn lemma_touched_trans(&self, mid: &Self, after: &Self, k: K)
        requires
            mid.advanced_from(self),
            after.advanced_from(mid),
            mid.touched_only(self, k),
            after.touched_only(mid, k),
        ensures
            after.touched_only(self, k),
    {
        assert forall|t: int, i: int|
            #![trigger after.tables@[t].ks@[i]]
            after.kvs <= t < self.tables@.len() && 0 <= i < self.tables@[t].cap()
                && self.tables@[t].ks@[i] != Key::Present(k) && after.tables@[t].ks@[i]
                != Key::Present(k) implies {
            &&& after.tables@[t].ks@[i] == self.tables@[t].ks@[i]
            &&& after.tables@[t].vs@[i] == self.tables@[t].vs@[i]
        } by {
            assert(self.tables@[t].advanced(mid.tables@[t]));
            assert(mid.tables@[t].advanced(after.tables@[t]));
            assert(slot_advances(
                mid.tables@[t].ks@[i],
                mid.tables@[t].vs@[i],
                after.tables@[t].ks@[i],
                after.tables@[t].vs@[i],
            ));
            assert(mid.tables@[t].ks@[i] != Key::Present(k));
            assert(mid.tables@[t].ks@[i] == self.tables@[t].ks@[i]);
        }
    }

    /// This map has the tables of `before`, each as it was, but for table `j`.
    pub open spec fn others_kept(&self, before: &Self, j: usize) -> bool {
        &&& self.tables@.len() == before.tables@.len()
        &&& forall|t: int|
            0 <= t < before.tables@.len() && t != j ==> #[trigger] self.tables@[t]
                == before.tables@[t]
    }

    /// This map is a later state of `before`: the root has not gone back, no table has lost
    /// or changed its successor, and every slot of every table that is not released has
    /// moved forward or stayed.
    pub open spec fn advanced_from(&self, before: &Self) -> bool {
        &&& before.kvs <= self.kvs
        &&& before.tables@.len() <= self.tables@.len()
        &&& forall|j: int|
            0 <= j < before.tables@.len() && (#[trigger] before.tables@[j]).chm.newkvs is Some
                ==> self.tables@[j].chm.newkvs == before.tables@[j].chm.newkvs
        &&& forall|j: int|
            self.kvs <= j < before.tables@.len() ==> before.tables@[j].advanced(
                #[trigger] self.tables@[j],
            )
    }

    /// An empty map whose root table has the default size, `DEFAULT_SIZE` slots.
    pub fn new() -> (map: Self)
        ensures
            map.wf(),
            map@ == Map::<K, V>::empty(),
            map.kvs == 0,
            map.tables@.len() == 1,
            map.tables@[0].is_fresh(DEFAULT_SIZE as int),
            forall|k: K| #[trigger] map.tables@[0].fits(k),
            forall|k: K| (#[trigger] chain_slot(map.tables@, 0, k)) is Empty,
    {
        proof {
            reveal_with_fuel(vstd::arithmetic::power2::is_pow2, 5);
        }
        NonBlockingHashMap::with_slots(DEFAULT_SIZE, now_seconds())
    }

    /// An empty map that is asked to make room for `initial_sz` entries: the request is
    /// capped, rounded up to a size that a table may have, and multiplied by four. The
    /// clock is read for the time from which the map counts to its first resize.
    pub fn new_with_size(initial_sz: usize) -> (map: Self)
        ensures
            map.wf(),
            map@ == Map::<K, V>::empty(),
            map.kvs == 0,
            map.tables@.len() == 1,
            map.tables@[0].is_fresh(initial_slots(initial_sz as int)),
            forall|k: K| #[trigger] map.tables@[0].fits(k),
            forall|k: K| (#[trigger] chain_slot(map.tables@, 0, k)) is Empty,
    {
        NonBlockingHashMap::new_with_size_at(initial_sz, now_seconds())
    }

    /// The map that `new_with_size` makes when the clock reads `now`.
    pub fn new_with_size_at(initial_sz: usize, now: i64) -> (map: Self)
        ensures
            map.wf(),
            map@ == Map::<K, V>::empty(),
            map.kvs == 0,
            map.last_resize == now,
            map.tables@.len() == 1,
            map.tables@[0].is_fresh(initial_slots(initial_sz as int)),
            forall|k: K| #[trigger] map.tables@[0].fits(k),
            forall|k: K| (#[trigger] chain_slot(map.tables@, 0, k)) is Empty,
    {
        let mut initial_sz = initial_sz;
        if initial_sz > MAX_INITIAL_SIZE {
            initial_sz = MAX_INITIAL_SIZE;
        }
        proof {
            lemma_round_up(initial_sz as int);
            lemma_round_up_cap(initial_sz as int);
        }
        NonBlockingHashMap::with_slots(round_up(initial_sz) * 4, now)
    }

    /// An empty map whose root table has `size` slots, and which counts the time to its
    /// first resize from `now`.
    pub fn with_slots(size: usize, now: i64) -> (map: Self)
        requires
            MIN_SIZE <= size <= MAX_SIZE,
            vstd::arithmetic::power2::is_pow2(size as int),
        ensures
            map.wf(),
            map@ == Map::<K, V>::empty(),
            map.kvs == 0,
            map.last_resize == now,
            map.tables@.len() == 1,
            map.tables@[0].is_fresh(size as int),
            forall|k: K| #[trigger] map.tables@[0].fits(k),
            forall|k: K| (#[trigger] chain_slot(map.tables@, 0, k)) is Empty,
    {
        let kvs: KVs<K, V> = KVs::new(size);
        let mut tables: Vec<KVs<K, V>> = Vec::new();
        tables.push(kvs);
        let map = NonBlockingHashMap { tables, kvs: 0, last_resize: now };
        proof {
            kvs.lemma_fresh_wf();
            assert(map.tables@ =~= seq![kvs]);
            assert forall|k: K| (#[trigger] chain_slot(map.tables@, 0, k)) is Empty by {
                lemma_chain_slot_absent(map.tables@, 0, k);
            }
            assert forall|k: K| (#[trigger] map.entry(k)) is Empty by {
                assert(chain_slot(map.tables@, 0, k) is Empty);
            }
            assert(map@ =~= Map::<K, V>::empty());
        }
        map
    }

    /// The number of slots of the root table.
    pub fn len(&self) -> (n: usize)
        requires
            self.inv(),
        ensures
            n == self.tables@[self.kvs as int].cap(),
    {
        self.tables[self.kvs].len()
    }

    /// The number of live entries that the root table counts. Entries that are still on
    /// their way from an earlier table are counted once they are moved, and an entry that
    /// was moved on to a successor stays counted.
    pub fn size(&self) -> (n: usize)
        requires
            self.inv(),
        ensures
            n == self.tables@[self.kvs as int].chm.size,
            self.tables@[self.kvs as int].live_count() <= n <= self.tables@[self.kvs as int].filled_count(),
    {
        proof {
            assert(self.tables@[self.kvs as int].wf());
        }
        self.tables[self.kvs].chm.size
    }

    /// The root table, by its number.
    pub fn get_table_nonatomic(&self) -> (kvs: usize)
        ensures
            kvs == self.kvs,
    {
        self.kvs
    }

    /// The table with the number `kvs`.
    pub fn table(&self, kvs: usize) -> (t: &KVs<K, V>)
        requires
            kvs < self.tables@.len(),
        ensures
            *t == self.tables@[kvs as int],
    {
        &self.tables[kvs]
    }

    /// The table `level` steps behind the root, if the chain is that long.
    pub fn get_kvs_level(&self, level: usize) -> (kvs: Option<usize>)
        requires
            self.inv(),
        ensures
            kvs == (if self.kvs + level < self.tables@.len() {
                Some((self.kvs + level) as usize)
            } else {
                None
            }),
    {
        self.get_kvs_level_impl(Some(self.get_table_nonatomic()), level)
    }

    /// The table `level` steps behind `kvs`, if the chain is that long.
    pub fn get_kvs_level_impl(&self, kvs: Option<usize>, level: usize) -> (found: Option<usize>)
        requires
            self.inv(),
            kvs is Some ==> kvs->Some_0 < self.tables@.len(),
        ensures
            found == (if kvs is Some && kvs->Some_0 + level < self.tables@.len() {
                Some((kvs->Some_0 + level) as usize)
            } else {
                None
            }),
        decreases level,
    {
        match kvs {
            None => None,
            Some(j) => {
                if level == 0 {
                    Some(j)
                } else {
                    assert(self.tables@[j as int].chm.newkvs == link_of(
                        self.tables@.len() as int,
                        j as int,
                    ));
                    self.get_kvs_level_impl(self.tables[j].chm.get_newkvs_nonatomic(), level - 1)
                }
            },
        }
    }

    /// Steps that leave what the chain holds as it is, but for deletions forgotten, read
    /// from any table up to `j`, leave the entries as they are.
    pub proof fn lemma_entries_kept(&self, before: &Self, j: usize)
        requires
            before.inv(),
            self.inv(),
            self.kvs >= before.kvs,
            j >= before.kvs,
            faded_upto(before.tables@, self.tables@, j as int),
        ensures
            self@ == before@,
    {
        lemma_faded_upto_shrink(before.tables@, self.tables@, j as int, before.kvs as int);
        self.lemma_view_kept(before);
    }

    /// Steps that leave what the chain holds as it is, but for deletions forgotten, leave the
    /// entries as they are.
    pub proof fn lemma_faded_entries(&self, before: &Self)
        requires
            before.inv(),
            self.inv(),
            self.kvs >= before.kvs,
            faded(before.tables@, self.tables@),
        ensures
            self@ == before@,
    {
        lemma_faded_is_upto(before.tables@, self.tables@, before.kvs as int);
        self.lemma_view_kept(before);
    }

    /// Steps that leave what the chain holds as it is, but for deletions forgotten, read
    /// from the root that was, leave the entries as they are.
    pub proof fn lemma_view_kept(&self, before: &Self)
        requires
            before.inv(),
            self.inv(),
            self.kvs >= before.kvs,
            faded_upto(before.tables@, self.tables@, before.kvs as int),
        ensures
            self@ == before@,
    {
        assert forall|k: K| #[trigger] self.entry(k).live() == before.entry(k).live() by {
            lemma_skip(self.tables@, before.kvs as int, self.kvs as int, k);
            assert(fades(
                chain_slot(before.tables@, before.kvs as int, k),
                chain_slot(self.tables@, before.kvs as int, k),
            ));
        }
        assert forall|k: K| #[trigger] self@.contains_key(k) == before@.contains_key(k) by {
            assert(self.entry(k).live() is Some == self@.contains_key(k));
            assert(before.entry(k).live() is Some == before@.contains_key(k));
        }
        assert forall|k: K| #[trigger] self@.contains_key(k) implies self@[k] == before@[k] by {
            assert(self.entry(k).live() == Some(self@[k]));
            assert(before.entry(k).live() == Some(before@[k]));
        }
        assert(self@ =~= before@);
    }

    /// Where every table from `kvs` up to `next` is released, or does not hold `k`, or has
    /// moved `k` out, the chain holds for `k` from `kvs` on what it holds from `next` on,
    /// and so it does after a walk that started at `next`.
    pub proof fn lemma_continue(&self, after: &Self, kvs: usize, next: usize, k: K)
        requires
            self.inv(),
            after.inv(),
            kvs < next < self.tables@.len(),
            after.same_state(self) || after.walked(self, next, 0),
            forall|t: int|
                kvs <= t < next && self.kvs <= t < self.tables@.len() ==> (
                #[trigger] self.tables@[t]).local(k) is None || self.tables@[t].local(k) == Some(
                    Value::<V>::TombPrime,
                ),
        ensures
            chain_slot(after.tables@, kvs as int, k) == chain_slot(after.tables@, next as int, k),
    {
        let ts = self.tables@;
        let ts2 = after.tables@;
        assert forall|t: int| kvs <= t < next && t < ts2.len() implies (#[trigger] ts2[t]).cap()
            == 0 || ts2[t].local(k) is None || ts2[t].local(k) == Some(Value::<V>::TombPrime) by {
            if t >= after.kvs {
                assert(ts2[t] == ts[t]);
                assert(ts[t].local(k) is None || ts[t].local(k) == Some(Value::<V>::TombPrime));
            }
        }
        lemma_skip(ts2, kvs as int, next as int, k);
    }

    /// A state is a later state of itself.
    pub proof fn lemma_advanced_refl(&self)
        requires
            self.inv(),
        ensures
            self.advanced_from(self),
    {
        assert forall|j: int| self.kvs <= j < self.tables@.len() implies self.tables@[j].advanced(
            #[trigger] self.tables@[j],
        ) by {
            assert(self.tables@[j].wf());
            self.tables@[j].lemma_advanced_refl();
        }
    }

    /// A later state of a later state is a later state.
    pub proof fn lemma_advanced_trans(&self, mid: &Self, after: &Self)
        requires
            mid.advanced_from(self),
            after.advanced_from(mid),
        ensures
            after.advanced_from(self),
    {
        assert forall|j: int|
            after.kvs <= j < self.tables@.len() implies self.tables@[j].advanced(
            #[trigger] after.tables@[j],
        ) by {
            assert(self.tables@[j].advanced(mid.tables@[j]));
            assert(mid.tables@[j].advanced(after.tables@[j]));
            self.tables@[j].lemma_advanced_trans(mid.tables@[j], after.tables@[j]);
        }
        assert forall|j: int|
            0 <= j < self.tables@.len() && (#[trigger] self.tables@[j]).chm.newkvs is Some implies after.tables@[j].chm.newkvs
            == self.tables@[j].chm.newkvs by {
            assert(mid.tables@[j].chm.newkvs == self.tables@[j].chm.newkvs);
        }
    }

    /// A transition of one slot takes the map to a later state.
    pub proof fn lemma_stepped_advanced(&self, before: &Self, j: usize, idx: usize)
        requires
            before.inv(),
            before.has_table(j),
            self.stepped(before, j, idx),
        ensures
            self.advanced_from(before),
    {
        before.tables@[j as int].lemma_step_advances(self.tables@[j as int], idx as int);
        assert forall|t: int|
            self.kvs <= t < before.tables@.len() implies before.tables@[t].advanced(
            #[trigger] self.tables@[t],
        ) by {
            if t != j {
                assert(before.tables@[t].wf());
                before.tables@[t].lemma_advanced_refl();
            }
        }
    }

    /// A change of one table's control block that takes no credit back and forgets no
    /// successor takes the map to a later state.
    pub proof fn lemma_recounted_advanced(&self, before: &Self, j: usize)
        requires
            before.inv(),
            before.has_table(j),
            self.kvs == before.kvs,
            self.tables@.len() >= before.tables@.len(),
            forall|t: int|
                0 <= t < before.tables@.len() && t != j ==> #[trigger] self.tables@[t]
                    == before.tables@[t],
            before.tables@[j as int].same_cells(self.tables@[j as int]),
            before.tables@[j as int].chm.newkvs is Some ==> self.tables@[j as int].chm.newkvs
                == before.tables@[j as int].chm.newkvs,
            self.tables@[j as int].chm.copy_done >= before.tables@[j as int].chm.copy_done,
        ensures
            self.advanced_from(before),
    {
        assert(before.tables@[j as int].wf());
        before.tables@[j as int].lemma_same_cells_advance(self.tables@[j as int]);
        assert forall|t: int|
            self.kvs <= t < before.tables@.len() implies before.tables@[t].advanced(
            #[trigger] self.tables@[t],
        ) by {
            if t != j {
                assert(before.tables@[t].wf());
                before.tables@[t].lemma_advanced_refl();
            }
        }
    }
}

/// Four times a rounded initial size is a size that a table may have.
pub proof fn lemma_round_up_cap(initial_sz: int)
    requires
        initial_sz <= MAX_INITIAL_SIZE,
    ensures
        4 * round_up_spec(initial_sz) <= MAX_SIZE,
        vstd::arithmetic::power2::is_pow2(4 * round_up_spec(initial_sz)),
{
    lemma_round_up(initial_sz);
    vstd::arithmetic::power2::lemma2_to64();
    lemma_round_up_within(initial_sz, 20);
    reveal_with_fuel(vstd::arithmetic::power2::is_pow2, 3);
}

} // verus!
