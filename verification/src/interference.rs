//! What a walk has found out about its key stays true, whatever transitions
//! are made between its own: of the slots that it saw occupied, of the
//! tables that handed its key on, and of the value that it has to write.
//!
//! An operation is a walk along the chain that makes a transition now and
//! then; each transition keeps the chain's invariant if its guard holds.
//! The laws here say that the guards, once established, are not undone by
//! the transitions of others.

use vstd::prelude::*;
use crate::chain::{
    agrees_below, chain_inv, chain_slot, faded, fades, lemma_either_below, lemma_fades_below,
    lemma_stops_here, routed, same_but,
};
use crate::frames::{
    lemma_step_above, lemma_step_basic, lemma_step_frozen, lemma_step_other_key,
    lemma_write_frozen,
};
use crate::slot::{Key, StableHash, Value};
use crate::table::KVs;

verus! {

/// `after` takes the place of table `j0` of the chain `ts` by one transition of slot `idx`,
/// made when its guard held: a key is placed only where every earlier table has handed it
/// on, a value is written only if it is the value that earlier tables hold frozen for the
/// key, a slot is sealed or frozen or marked as moved out only in a table that has a
/// successor, and a frozen value is marked as moved out only once the chain behind it
/// holds it.
pub open spec fn guarded_step<K: StableHash, V: Copy>(
    ts: Seq<KVs<K, V>>,
    root: int,
    j0: int,
    after: KVs<K, V>,
    idx: int,
) -> bool {
    let before = ts[j0];
    &&& chain_inv(ts, root)
    &&& root <= j0 < ts.len()
    &&& before.steps_to(after, idx)
    &&& before.ks@[idx] is Empty && after.ks@[idx] is Present ==> routed(
        ts,
        root,
        j0,
        after.ks@[idx]->Present_0,
    )
    &&& after.ks@[idx] is Present && after.vs@[idx] != before.vs@[idx] && !after.vs@[idx].is_prime()
        ==> agrees_below(ts, root, j0, after.ks@[idx]->Present_0, after.vs@[idx])
    &&& after.ks@[idx] is TombStone && before.ks@[idx] is Empty || after.vs@[idx] != before.vs@[idx]
        && after.vs@[idx].is_prime() ==> j0 + 1 < ts.len()
    &&& before.vs@[idx] is Prime && after.vs@[idx] is TombPrime ==> chain_slot(
        ts,
        j0 + 1,
        before.ks@[idx]->Present_0,
    ) == before.vs@[idx].unprimed()
}

/// Whether the step writes a value: whether it changes the value cell of a slot to a
/// value or a tombstone that is not primed.
pub open spec fn is_write<K: StableHash, V: Copy>(before: KVs<K, V>, after: KVs<K, V>, idx: int) -> bool {
    after.vs@[idx] != before.vs@[idx] && !after.vs@[idx].is_prime()
}

/// A transition whose guard holds keeps the chain's invariant. If it writes a value, the
/// chain holds that value for the key of the slot, read from the table of the slot, and
/// for every other key what it held. If it does not, the chain holds for every key what
/// it held, but for deletions forgotten.
pub proof fn law_guarded_steps_keep_the_chain<K: StableHash, V: Copy>(
    ts: Seq<KVs<K, V>>,
    root: int,
    j0: int,
    after: KVs<K, V>,
    idx: int,
)
    requires
        guarded_step(ts, root, j0, after, idx),
    ensures
        chain_inv(ts.update(j0, after), root),
        is_write(ts[j0], after, idx) ==> {
            &&& same_but(ts, ts.update(j0, after), after.ks@[idx]->Present_0)
            &&& chain_slot(ts.update(j0, after), j0, after.ks@[idx]->Present_0) == after.vs@[idx]
        },
        !is_write(ts[j0], after, idx) ==> faded(ts, ts.update(j0, after)),
{
    let ts2 = ts.update(j0, after);
    let before = ts[j0];
    assert(after.untouched() || j0 + 1 < ts.len()) by {
        if j0 + 1 == ts.len() {
            assert(before.untouched());
            assert forall|i: int| 0 <= i < after.cap() implies !(#[trigger] after.ks@[i] is TombStone)
                && !after.vs@[i].is_prime() by {
                if i != idx {
                    assert(after.ks@[i] == before.ks@[i]);
                    assert(after.vs@[i] == before.vs@[i]);
                } else {
                    assert(!(before.ks@[i] is TombStone));
                }
            }
        }
    }
    lemma_step_basic(ts, root, j0, after, idx);
    if is_write(before, after, idx) {
        let k = after.ks@[idx]->Present_0;
        lemma_write_frozen(ts, root, j0, after, idx, k);
    } else {
        assert forall|a: int, k: K| 0 <= a implies fades(
            chain_slot(ts, a, k),
            #[trigger] chain_slot(ts2, a, k),
        ) by {
            if after.ks@[idx] != Key::Present(k) {
                lemma_step_other_key(ts, j0, after, idx, k, a);
            } else if a > j0 {
                lemma_step_above(ts, j0, after, k, a);
            } else {
                before.lemma_step_held(after, idx, k);
                lemma_step_above(ts, j0, after, k, j0 + 1);
                if !before.passes(k) {
                    lemma_stops_here(ts, root, j0, k);
                }
                assert(fades(chain_slot(ts, j0, k), chain_slot(ts2, j0, k)));
                assert forall|t: int| a <= t < j0 implies (#[trigger] ts2[t]).local(k)
                    == ts[t].local(k) by {}
                lemma_fades_below(ts, ts2, j0, k, a);
            }
        }
        if after.ks@[idx] is Present && after.vs@[idx] is Prime && after.vs@[idx] != before.vs@[idx] {
            let k = after.ks@[idx]->Present_0;
            before.lemma_step_held(after, idx, k);
            lemma_stops_here(ts, root, j0, k);
        }
        lemma_step_frozen(ts, root, j0, after, idx);
    }
}

/// The slots that a search saw occupied by other keys are occupied by those keys still.
pub proof fn law_misses_stay<K: StableHash, V: Copy>(
    ts: Seq<KVs<K, V>>,
    root: int,
    j0: int,
    after: KVs<K, V>,
    idx: int,
    k: K,
    d: int,
)
    requires
        guarded_step(ts, root, j0, after, idx),
        ts[j0].missed(k, d),
    ensures
        after.missed(k, d),
{
    let before = ts[j0];
    assert forall|e: int| 0 <= e < d implies {
        &&& !(after.ks@[#[trigger] after.probe(k, e)] is Empty)
        &&& after.ks@[after.probe(k, e)] != Key::Present(k)
    } by {
        assert(before.probe(k, e) == after.probe(k, e));
        before.lemma_probe_range(k, e);
        assert(!(before.ks@[before.probe(k, e)] is Empty));
    }
}

/// The tables that handed a key on hand it on still.
pub proof fn law_routes_stay<K: StableHash, V: Copy>(
    ts: Seq<KVs<K, V>>,
    root: int,
    j0: int,
    after: KVs<K, V>,
    idx: int,
    j: int,
    k: K,
)
    requires
        guarded_step(ts, root, j0, after, idx),
        routed(ts, root, j, k),
        j <= ts.len(),
    ensures
        routed(ts.update(j0, after), root, j, k),
{
    let ts2 = ts.update(j0, after);
    assert forall|t: int| root <= t < j implies (#[trigger] ts2[t]).passes(k) by {
        assert(ts[t].passes(k));
        if t == j0 {
            ts[j0].lemma_step_passes(after, idx, k);
        }
    }
}

/// The value that a walk has to write is still the value that earlier tables hold frozen
/// for its key: nothing is frozen for a key in a table that has handed the key on.
pub proof fn law_agreement_stays<K: StableHash, V: Copy>(
    ts: Seq<KVs<K, V>>,
    root: int,
    j0: int,
    after: KVs<K, V>,
    idx: int,
    j: int,
    k: K,
    putval: Value<V>,
)
    requires
        guarded_step(ts, root, j0, after, idx),
        routed(ts, root, j, k),
        agrees_below(ts, root, j, k, putval),
        j <= ts.len(),
    ensures
        agrees_below(ts.update(j0, after), root, j, k, putval),
{
    let ts2 = ts.update(j0, after);
    assert forall|t: int, i: int|
        #![trigger ts2[t].vs@[i]]
        root <= t < j && 0 <= i < ts2[t].cap() && ts2[t].ks@[i] == Key::Present(k)
            && ts2[t].vs@[i] is Prime implies putval == Value::Present(ts2[t].vs@[i]->Prime_0) by {
        if t == j0 && i == idx {
            assert(ts[t].passes(k));
            ts[j0].lemma_step_held(after, idx, k);
            if !(ts[t].ks@[i] is Empty) {
                assert(ts[t].vs@[i].is_prime());
                assert(ts[t].vs@[i] == ts2[t].vs@[i]);
            }
        } else {
            assert(ts[t].vs@[i] == ts2[t].vs@[i]);
            assert(ts[t].ks@[i] == ts2[t].ks@[i]);
        }
    }
}

/// A frozen value that the chain behind it holds is held there until the frozen value is
/// marked as moved out: only the helper that marks it, or one that comes after, writes
/// another value for the key.
pub proof fn law_forward_stays<K: StableHash, V: Copy>(
    ts: Seq<KVs<K, V>>,
    root: int,
    j0: int,
    after: KVs<K, V>,
    idx: int,
    j: int,
    i: int,
)
    requires
        guarded_step(ts, root, j0, after, idx),
        root <= j < ts.len(),
        0 <= i < ts[j].cap(),
        ts[j].ks@[i] is Present,
        ts[j].vs@[i] is Prime,
        chain_slot(ts, j + 1, ts[j].ks@[i]->Present_0) == ts[j].vs@[i].unprimed(),
    ensures
        ts.update(j0, after)[j].vs@[i] == ts[j].vs@[i] ==> chain_slot(
            ts.update(j0, after),
            j + 1,
            ts[j].ks@[i]->Present_0,
        ) == ts[j].vs@[i].unprimed(),
{
    let ts2 = ts.update(j0, after);
    let k = ts[j].ks@[i]->Present_0;
    let v = ts[j].vs@[i]->Prime_0;
    law_guarded_steps_keep_the_chain(ts, root, j0, after, idx);
    if ts2[j].vs@[i] == ts[j].vs@[i] {
        if j0 <= j {
            lemma_step_above(ts, j0, after, k, j + 1);
        } else if after.ks@[idx] != Key::Present(k) {
            lemma_step_other_key(ts, j0, after, idx, k, j + 1);
        } else {
            // The step is made on the slot of the same key, in a later table. Read from
            // that table, the chain holds what it held, or what the step wrote, which is
            // the frozen value, unless it held nothing or a deletion there.
            let held = chain_slot(ts, j0, k);
            let holds = chain_slot(ts2, j0, k);
            ts[j0].lemma_step_held(after, idx, k);
            lemma_step_above(ts, j0, after, k, j0 + 1);
            assert(holds == held || holds == Value::Present(v) || !(held is Present)) by {
                if ts[j0].ks@[idx] is Empty {
                    lemma_stops_here(ts, root, j0, k);
                } else if after.vs@[idx] != ts[j0].vs@[idx] && !after.vs@[idx].is_prime() {
                    assert(ts[j].vs@[i] is Prime);
                    assert(after.vs@[idx] == Value::Present(v));
                }
            }
            assert forall|t: int| j + 1 <= t < j0 implies (#[trigger] ts2[t]).local(k)
                == ts[t].local(k) by {}
            lemma_either_below(ts, ts2, j0, k, j + 1);
        }
    }
}

} // verus!
