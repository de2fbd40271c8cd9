//! What holds of the map over any sequence of operations.
//!
//! Every operation reads and writes one key, and says in its contract what it
//! does to the entries. The laws here follow from those contracts: they are
//! stated over the entries alone.

use vstd::prelude::*;
use crate::api::{allows, written};
use crate::map::NonBlockingHashMap;
use crate::slot::{Identity, MatchingTypes, StableHash, Value};
use crate::states::{slot_state, state_reaches};

verus! {

/// One call of `put_if_match`: the key, the value or tombstone to write, the policy, and
/// the expected value that goes with the policy.
pub struct Write<K, V> {
    pub key: K,
    pub putval: Value<V>,
    pub matchingtype: MatchingTypes,
    pub expval: Option<Value<V>>,
}

/// Whether the write goes through on the entries `m`.
pub open spec fn goes<K, V>(m: Map<K, V>, w: Write<K, V>) -> bool {
    allows(w.matchingtype, w.expval, m.get(w.key))
}

/// The entries after the write: what `put_if_match` leaves.
pub open spec fn apply<K, V>(m: Map<K, V>, w: Write<K, V>) -> Map<K, V> {
    if goes(m, w) {
        written(m, w.key, w.putval)
    } else {
        m
    }
}

/// The entries after the writes `ws`, one after the other, on the entries `m`.
pub open spec fn run_from<K, V>(m: Map<K, V>, ws: Seq<Write<K, V>>) -> Map<K, V>
    decreases ws.len(),
{
    if ws.len() == 0 {
        m
    } else {
        apply(run_from(m, ws.drop_last()), ws.last())
    }
}

/// The entries after the writes `ws` on an empty map.
pub open spec fn run<K, V>(ws: Seq<Write<K, V>>) -> Map<K, V> {
    run_from(Map::empty(), ws)
}

/// What the last of the writes `ws` that went through for `k` has written, if any did.
pub open spec fn last_write<K, V>(m: Map<K, V>, ws: Seq<Write<K, V>>, k: K) -> Option<Value<V>>
    decreases ws.len(),
{
    if ws.len() == 0 {
        None
    } else if ws.last().key == k && goes(run_from(m, ws.drop_last()), ws.last()) {
        Some(ws.last().putval)
    } else {
        last_write(m, ws.drop_last(), k)
    }
}

/// Whether each of the writes writes a value or a tombstone.
pub open spec fn plain<K, V>(ws: Seq<Write<K, V>>) -> bool {
    forall|i: int| 0 <= i < ws.len() ==> (#[trigger] ws[i]).putval is Present || ws[i].putval is TombStone
}

/// What the named operations of the map do to the entries is what `put_if_match` does with
/// their value, their policy and their expected value: each of them is one write.
pub proof fn law_operations_are_writes<K, V>(m: Map<K, V>, k: K, v: V, expected: V)
    ensures
        apply(
            m,
            Write { key: k, putval: Value::Present(v), matchingtype: MatchingTypes::MatchAll, expval: None },
        ) == m.insert(k, v),
        apply(
            m,
            Write { key: k, putval: Value::TombStone, matchingtype: MatchingTypes::MatchAll, expval: None },
        ) == m.remove(k),
        apply(
            m,
            Write {
                key: k,
                putval: Value::Present(v),
                matchingtype: MatchingTypes::MatchValue,
                expval: Some(Value::TombStone),
            },
        ) == (if m.contains_key(k) {
            m
        } else {
            m.insert(k, v)
        }),
        apply(
            m,
            Write {
                key: k,
                putval: Value::Present(v),
                matchingtype: MatchingTypes::MatchAllNotTombStone,
                expval: None,
            },
        ) == (if m.contains_key(k) {
            m.insert(k, v)
        } else {
            m
        }),
        apply(
            m,
            Write {
                key: k,
                putval: Value::Present(v),
                matchingtype: MatchingTypes::MatchValue,
                expval: Some(Value::Present(expected)),
            },
        ) == (if m.get(k) == Some(expected) {
            m.insert(k, v)
        } else {
            m
        }),
        apply(
            m,
            Write {
                key: k,
                putval: Value::TombStone,
                matchingtype: MatchingTypes::MatchValue,
                expval: Some(Value::Present(expected)),
            },
        ) == (if m.get(k) == Some(expected) {
            m.remove(k)
        } else {
            m
        }),
{
}

/// After any sequence of writes the map holds for a key what the last write that went
/// through for it has written: the value, or nothing if that write was a removal. A key
/// for which no write went through is held as before.
pub proof fn law_last_write_wins<K, V>(m: Map<K, V>, ws: Seq<Write<K, V>>, k: K)
    requires
        plain(ws),
    ensures
        run_from(m, ws).get(k) == (match last_write(m, ws, k) {
            Some(putval) => putval.live(),
            None => m.get(k),
        }),
    decreases ws.len(),
{
    if ws.len() > 0 {
        let before = ws.drop_last();
        assert forall|i: int| 0 <= i < before.len() implies (#[trigger] before[i]).putval is Present
            || before[i].putval is TombStone by {
            assert(before[i] == ws[i]);
        }
        law_last_write_wins(m, before, k);
        let w = ws.last();
        assert(w == ws[ws.len() - 1]);
        assert(w.putval is Present || w.putval is TombStone);
    }
}

/// Read back after any sequence of writes on an empty map, a key yields the value that
/// was last written for it, and nothing if it was last removed or never written.
pub proof fn law_round_trip<K, V>(ws: Seq<Write<K, V>>, k: K)
    requires
        plain(ws),
    ensures
        run(ws).get(k) == (match last_write(Map::empty(), ws, k) {
            Some(putval) => putval.live(),
            None => None,
        }),
{
    law_last_write_wins(Map::<K, V>::empty(), ws, k);
}

/// The value that the `i`th of the operations `ws` on an empty map finds for its key, and
/// returns, is what the last write before it that went through for the key has written:
/// the operations take effect one at a time, in the order in which they were made.
pub proof fn law_each_sees_the_last_write<K, V>(ws: Seq<Write<K, V>>, i: int)
    requires
        plain(ws),
        0 <= i < ws.len(),
    ensures
        run(ws.take(i)).get(ws[i].key) == (match last_write(Map::empty(), ws.take(i), ws[i].key) {
            Some(putval) => putval.live(),
            None => None,
        }),
{
    let before = ws.take(i);
    assert forall|j: int| 0 <= j < before.len() implies (#[trigger] before[j]).putval is Present
        || before[j].putval is TombStone by {
        assert(before[j] == ws[j]);
    }
    law_last_write_wins(Map::<K, V>::empty(), before, ws[i].key);
}

/// A value that was put for a key is found there as long as nothing is written for that
/// key, whatever is written for other keys.
pub proof fn law_no_lost_insert<K, V>(m: Map<K, V>, k: K, v: V, others: Seq<Write<K, V>>)
    requires
        forall|i: int| 0 <= i < others.len() ==> (#[trigger] others[i]).key != k,
    ensures
        run_from(m.insert(k, v), others).get(k) == Some(v),
    decreases others.len(),
{
    if others.len() > 0 {
        let before = others.drop_last();
        assert forall|i: int| 0 <= i < before.len() implies (#[trigger] before[i]).key != k by {
            assert(before[i] == others[i]);
        }
        law_no_lost_insert(m, k, v, before);
        assert(others.last() == others[others.len() - 1]);
    }
}

/// In every table of a map that is not released, no two slots hold the same key: a key
/// has at most one slot there, and so at most one live value. This holds in every state
/// in which the map's invariant holds, which is every state between two transitions.
pub proof fn law_one_slot_per_key<K: StableHash, V: Identity>(
    m: NonBlockingHashMap<K, V>,
    t: usize,
    i: int,
    j: int,
)
    requires
        m.inv(),
        m.has_table(t),
        0 <= i < m.tables@[t as int].cap(),
        0 <= j < m.tables@[t as int].cap(),
        m.tables@[t as int].ks@[i] is Present,
        m.tables@[t as int].ks@[i] == m.tables@[t as int].ks@[j],
    ensures
        i == j,
{
    assert(m.tables@[t as int].wf());
}

/// Help with a migration that is not finished adds to the work that has gone into it: the
/// count of credited slots and the cursor never go back, and one of them goes on.
pub proof fn law_help_is_progress<K: StableHash, V: Identity>(
    before: NonBlockingHashMap<K, V>,
    after: NonBlockingHashMap<K, V>,
    j: usize,
)
    requires
        before.inv(),
        before.has_table(j),
        after.helped(&before, j),
        after.tables@[j as int].chm.copy_done >= before.tables@[j as int].chm.copy_done,
        after.tables@[j as int].chm.copy_idx >= before.tables@[j as int].chm.copy_idx,
        before.tables@[j as int].chm.copy_done < before.tables@[j as int].cap(),
    ensures
        after.migration_work(j) > before.migration_work(j),
{
}

/// Between a state of the map and any later one, every slot of every table that is not
/// released has moved forward along the states of a slot, or stayed: its key, once set,
/// is the same, and a frozen value is the same until it is moved out.
pub proof fn law_slots_move_forward<K: StableHash, V: Identity>(
    before: NonBlockingHashMap<K, V>,
    after: NonBlockingHashMap<K, V>,
    j: int,
    i: int,
)
    requires
        after.advanced_from(&before),
        after.kvs <= j < before.tables@.len(),
        0 <= i < before.tables@[j].cap(),
    ensures
        state_reaches(
            slot_state(before.tables@[j].ks@[i], before.tables@[j].vs@[i]),
            slot_state(after.tables@[j].ks@[i], after.tables@[j].vs@[i]),
        ),
        before.tables@[j].ks@[i] is Present ==> after.tables@[j].ks@[i] == before.tables@[j].ks@[i],
        before.tables@[j].vs@[i] is Prime ==> after.tables@[j].vs@[i] == before.tables@[j].vs@[i]
            || after.tables@[j].vs@[i] is TombPrime,
{
    assert(before.tables@[j].advanced(after.tables@[j]));
}

/// A successor, once recorded, is never changed, and a root that has moved on from a table
/// never comes back to it, through any number of later states.
pub proof fn law_migration_goes_forward<K: StableHash, V: Identity>(
    first: NonBlockingHashMap<K, V>,
    second: NonBlockingHashMap<K, V>,
    third: NonBlockingHashMap<K, V>,
    j: int,
)
    requires
        second.advanced_from(&first),
        third.advanced_from(&second),
        0 <= j < first.tables@.len(),
    ensures
        third.advanced_from(&first),
        first.tables@[j].chm.newkvs is Some ==> third.tables@[j].chm.newkvs
            == first.tables@[j].chm.newkvs,
        first.kvs <= second.kvs <= third.kvs,
        second.kvs > first.kvs ==> third.kvs > first.kvs,
{
    first.lemma_advanced_trans(&second, &third);
}

} // verus!
