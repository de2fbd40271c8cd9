//! What a transition of one table leaves as it is in the chain.

use vstd::prelude::*;
use crate::chain::{
    agrees_below, chain_inv, chain_slot, faded, fades, forward, frozen_ok, lemma_either_below,
    lemma_same_above, link_of, linked, routed, same_but, same_chain,
};
use crate::slot::{Key, StableHash, Value};
use crate::table::KVs;

verus! {

/// A transition of one slot leaves alone what the chain holds for a key that the slot does
/// not hold.
pub proof fn lemma_step_other_key<K: StableHash, V: Copy>(
    ts: Seq<KVs<K, V>>,
    j0: int,
    after: KVs<K, V>,
    idx: int,
    k: K,
    a: int,
)
    requires
        0 <= j0 < ts.len(),
        0 <= a,
        ts[j0].steps_to(after, idx),
        after.ks@[idx] != Key::Present(k),
    ensures
        chain_slot(ts.update(j0, after), a, k) == chain_slot(ts, a, k),
{
    let ts2 = ts.update(j0, after);
    ts[j0].lemma_step_frame(after, idx, k);
    lemma_same_above(ts, ts2, a, k);
}

/// A transition of a slot of table `j0` leaves alone what the chain holds from any later
/// table on.
pub proof fn lemma_step_above<K: StableHash, V: Copy>(
    ts: Seq<KVs<K, V>>,
    j0: int,
    after: KVs<K, V>,
    k: K,
    a: int,
)
    requires
        0 <= j0 < a,
        j0 < ts.len(),
    ensures
        chain_slot(ts.update(j0, after), a, k) == chain_slot(ts, a, k),
{
    lemma_same_above(ts, ts.update(j0, after), a, k);
}

/// What a transition of one slot keeps of the chain's invariant, whatever it does to the
/// value: the links, each table's own invariant, and that earlier tables hand on what later
/// tables hold. A key that the transition places must have been handed on by every earlier
/// table.
pub proof fn lemma_step_basic<K: StableHash, V: Copy>(
    ts: Seq<KVs<K, V>>,
    root: int,
    j0: int,
    after: KVs<K, V>,
    idx: int,
)
    requires
        chain_inv(ts, root),
        root <= j0 < ts.len(),
        ts[j0].steps_to(after, idx),
        j0 == ts.len() - 1 ==> after.untouched(),
        ts[j0].ks@[idx] is Empty && after.ks@[idx] is Present ==> routed(
            ts,
            root,
            j0,
            after.ks@[idx]->Present_0,
        ),
    ensures
        linked(ts.update(j0, after)),
        forall|j: int| root <= j < ts.len() ==> (#[trigger] ts.update(j0, after)[j]).wf(),
        ts.update(j0, after)[ts.len() - 1].untouched(),
        forward(ts.update(j0, after), root),
{
    let ts2 = ts.update(j0, after);
    assert forall|j: int| 0 <= j < ts2.len() implies {
        &&& (#[trigger] ts2[j]).chm.newkvs == link_of(ts2.len() as int, j)
        &&& ts2[j].chm.has_newkvs == ts2[j].chm.newkvs.is_some()
    } by {
        assert(ts[j].chm.newkvs == link_of(ts.len() as int, j));
    }
    assert forall|j: int, j2: int, i: int|
        #![trigger ts2[j].passes(ts2[j2].ks@[i]->Present_0)]
        root <= j < j2 < ts2.len() && 0 <= i < ts2[j2].cap()
            && ts2[j2].ks@[i] is Present implies ts2[j].passes(ts2[j2].ks@[i]->Present_0) by {
        let k = ts2[j2].ks@[i]->Present_0;
        if j2 == j0 && i == idx && ts[j0].ks@[idx] is Empty {
            assert(ts[j].passes(k));
        } else {
            assert(ts[j2].ks@[i] == ts2[j2].ks@[i]);
            assert(ts[j].passes(ts[j2].ks@[i]->Present_0));
            if j == j0 {
                ts[j0].lemma_step_passes(after, idx, k);
            }
        }
    }
}

/// A transition that changes what the chain holds only by forgetting deletions keeps what
/// stands behind the frozen values, if what it freezes itself has nothing behind it.
pub proof fn lemma_step_frozen<K: StableHash, V: Copy>(
    ts: Seq<KVs<K, V>>,
    root: int,
    j0: int,
    after: KVs<K, V>,
    idx: int,
)
    requires
        chain_inv(ts, root),
        root <= j0 < ts.len(),
        ts[j0].steps_to(after, idx),
        faded(ts, ts.update(j0, after)),
        after.ks@[idx] is Present && after.vs@[idx] is Prime && after.vs@[idx] != ts[j0].vs@[idx]
            ==> chain_slot(ts, j0 + 1, after.ks@[idx]->Present_0) is Empty,
    ensures
        frozen_ok(ts.update(j0, after), root),
{
    let ts2 = ts.update(j0, after);
    assert forall|j: int, i: int|
        #![trigger ts2[j].vs@[i]]
        root <= j < ts2.len() && 0 <= i < ts2[j].cap() && ts2[j].ks@[i] is Present
            && ts2[j].vs@[i] is Prime implies {
        let c = chain_slot(ts2, j + 1, ts2[j].ks@[i]->Present_0);
        c is Empty || c == Value::Present(ts2[j].vs@[i]->Prime_0)
    } by {
        let k = ts2[j].ks@[i]->Present_0;
        assert(fades(chain_slot(ts, j + 1, k), chain_slot(ts2, j + 1, k)));
        if j == j0 && i == idx {
            if after.vs@[idx] != ts[j0].vs@[idx] {
            } else {
                assert(ts[j].vs@[i] is Prime);
                assert(ts[j].ks@[i] is Present);
            }
        } else {
            assert(ts[j].vs@[i] == ts2[j].vs@[i]);
            assert(ts[j].ks@[i] == ts2[j].ks@[i]);
        }
    }
}

/// A write to the value of `k` in table `j0` keeps what stands behind the frozen values, if
/// it writes what is frozen before it.
pub proof fn lemma_write_frozen<K: StableHash, V: Copy>(
    ts: Seq<KVs<K, V>>,
    root: int,
    j0: int,
    after: KVs<K, V>,
    idx: int,
    k: K,
)
    requires
        chain_inv(ts, root),
        root <= j0 < ts.len(),
        ts[j0].steps_to(after, idx),
        ts[j0].ks@[idx] == Key::Present(k),
        !after.vs@[idx].is_prime(),
        !(after.vs@[idx] is Empty),
        agrees_below(ts, root, j0, k, after.vs@[idx]),
    ensures
        frozen_ok(ts.update(j0, after), root),
        same_but(ts, ts.update(j0, after), k),
        chain_slot(ts.update(j0, after), j0, k) == after.vs@[idx],
        forall|a: int| j0 < a ==> #[trigger] chain_slot(ts.update(j0, after), a, k) == chain_slot(ts, a, k),
{
    let ts2 = ts.update(j0, after);
    ts[j0].lemma_step_held(after, idx, k);
    assert forall|a: int, k2: K| 0 <= a && k2 != k implies #[trigger] chain_slot(ts2, a, k2)
        == chain_slot(ts, a, k2) by {
        lemma_step_other_key(ts, j0, after, idx, k2, a);
    }
    assert forall|a: int| j0 < a implies #[trigger] chain_slot(ts2, a, k) == chain_slot(ts, a, k) by {
        lemma_step_above(ts, j0, after, k, a);
    }
    assert forall|j: int, i: int|
        #![trigger ts2[j].vs@[i]]
        root <= j < ts2.len() && 0 <= i < ts2[j].cap() && ts2[j].ks@[i] is Present
            && ts2[j].vs@[i] is Prime implies {
        let c = chain_slot(ts2, j + 1, ts2[j].ks@[i]->Present_0);
        c is Empty || c == Value::Present(ts2[j].vs@[i]->Prime_0)
    } by {
        let k2 = ts2[j].ks@[i]->Present_0;
        assert(ts[j].vs@[i] == ts2[j].vs@[i]);
        assert(ts[j].ks@[i] == ts2[j].ks@[i]);
        if k2 != k {
            assert(chain_slot(ts2, j + 1, k2) == chain_slot(ts, j + 1, k2));
        } else if j >= j0 {
            assert(chain_slot(ts2, j + 1, k) == chain_slot(ts, j + 1, k));
        } else {
            assert forall|t: int| j + 1 <= t < j0 implies (#[trigger] ts2[t]).local(k)
                == ts[t].local(k) by {}
            lemma_either_below(ts, ts2, j0, k, j + 1);
        }
    }
}

/// Replacing a table by one with the same cells and the same successor changes nothing of
/// what the chain holds.
pub proof fn lemma_same_cells_chain<K: StableHash, V: Copy>(
    ts: Seq<KVs<K, V>>,
    root: int,
    j0: int,
    after: KVs<K, V>,
)
    requires
        chain_inv(ts, root),
        root <= j0 < ts.len(),
        ts[j0].same_cells(after),
        after.wf(),
        after.chm.newkvs == ts[j0].chm.newkvs,
    ensures
        chain_inv(ts.update(j0, after), root),
        same_chain(ts, ts.update(j0, after)),
{
    let ts2 = ts.update(j0, after);
    ts[j0].lemma_same_cells(after);
    assert forall|a: int, k: K| 0 <= a implies #[trigger] chain_slot(ts2, a, k) == chain_slot(
        ts,
        a,
        k,
    ) by {
        assert forall|t: int| a <= t < ts.len() implies (#[trigger] ts2[t]).local(k)
            == ts[t].local(k) by {}
        lemma_same_above(ts, ts2, a, k);
    }
    assert forall|j: int| 0 <= j < ts2.len() implies {
        &&& (#[trigger] ts2[j]).chm.newkvs == link_of(ts2.len() as int, j)
        &&& ts2[j].chm.has_newkvs == ts2[j].chm.newkvs.is_some()
    } by {
        assert(ts[j].chm.newkvs == link_of(ts.len() as int, j));
    }
    assert forall|j: int, j2: int, i: int|
        #![trigger ts2[j].passes(ts2[j2].ks@[i]->Present_0)]
        root <= j < j2 < ts2.len() && 0 <= i < ts2[j2].cap()
            && ts2[j2].ks@[i] is Present implies ts2[j].passes(ts2[j2].ks@[i]->Present_0) by {
        assert(ts[j2].ks@[i] == ts2[j2].ks@[i]);
        assert(ts[j].passes(ts[j2].ks@[i]->Present_0));
    }
    assert forall|j: int, i: int|
        #![trigger ts2[j].vs@[i]]
        root <= j < ts2.len() && 0 <= i < ts2[j].cap() && ts2[j].ks@[i] is Present
            && ts2[j].vs@[i] is Prime implies {
        let c = chain_slot(ts2, j + 1, ts2[j].ks@[i]->Present_0);
        c is Empty || c == Value::Present(ts2[j].vs@[i]->Prime_0)
    } by {
        assert(ts[j].vs@[i] == ts2[j].vs@[i]);
        assert(ts[j].ks@[i] == ts2[j].ks@[i]);
        assert(chain_slot(ts2, j + 1, ts2[j].ks@[i]->Present_0) == chain_slot(
            ts,
            j + 1,
            ts2[j].ks@[i]->Present_0,
        ));
    }
}

/// Giving the last table a successor in which nothing was written changes nothing of what
/// the chain holds.
pub proof fn lemma_append<K: StableHash, V: Copy>(
    ts: Seq<KVs<K, V>>,
    root: int,
    last: KVs<K, V>,
    fresh: KVs<K, V>,
)
    requires
        chain_inv(ts, root),
        ts[ts.len() - 1].same_cells(last),
        last.wf(),
        last.chm.newkvs == Some(ts.len() as usize),
        ts.len() <= usize::MAX,
        fresh.wf(),
        fresh.untouched(),
        fresh.chm.newkvs is None,
        forall|k: K| !fresh.has_key(k),
    ensures
        chain_inv(ts.update(ts.len() - 1, last).push(fresh), root),
        same_chain(ts, ts.update(ts.len() - 1, last).push(fresh)),
{
    let n = ts.len() as int;
    let ts2 = ts.update(n - 1, last).push(fresh);
    ts[n - 1].lemma_same_cells(last);
    assert forall|a: int, k: K| 0 <= a implies #[trigger] chain_slot(ts2, a, k) == chain_slot(
        ts,
        a,
        k,
    ) by {
        assert forall|t: int| a <= t < ts.len() implies (#[trigger] ts2[t]).local(k)
            == ts[t].local(k) by {}
        assert forall|t: int| ts.len() <= t < ts2.len() implies (#[trigger] ts2[t]).local(k) is None by {
            assert(!fresh.has_key(k));
        }
        lemma_same_above(ts, ts2, a, k);
    }
    assert forall|j: int| 0 <= j < ts2.len() implies {
        &&& (#[trigger] ts2[j]).chm.newkvs == link_of(ts2.len() as int, j)
        &&& ts2[j].chm.has_newkvs == ts2[j].chm.newkvs.is_some()
    } by {
        if j < n - 1 {
            assert(ts[j].chm.newkvs == link_of(ts.len() as int, j));
        }
    }
    assert forall|j: int, j2: int, i: int|
        #![trigger ts2[j].passes(ts2[j2].ks@[i]->Present_0)]
        root <= j < j2 < ts2.len() && 0 <= i < ts2[j2].cap()
            && ts2[j2].ks@[i] is Present implies ts2[j].passes(ts2[j2].ks@[i]->Present_0) by {
        if j2 == n {
            assert(fresh.has_key(fresh.ks@[i]->Present_0));
        } else {
            assert(ts[j2].ks@[i] == ts2[j2].ks@[i]);
            assert(ts[j].passes(ts[j2].ks@[i]->Present_0));
        }
    }
    assert forall|j: int, i: int|
        #![trigger ts2[j].vs@[i]]
        root <= j < ts2.len() && 0 <= i < ts2[j].cap() && ts2[j].ks@[i] is Present
            && ts2[j].vs@[i] is Prime implies {
        let c = chain_slot(ts2, j + 1, ts2[j].ks@[i]->Present_0);
        c is Empty || c == Value::Present(ts2[j].vs@[i]->Prime_0)
    } by {
        if j < n {
            assert(ts[j].vs@[i] == ts2[j].vs@[i]);
            assert(ts[j].ks@[i] == ts2[j].ks@[i]);
            assert(chain_slot(ts2, j + 1, ts2[j].ks@[i]->Present_0) == chain_slot(
                ts,
                j + 1,
                ts2[j].ks@[i]->Present_0,
            ));
        }
    }
    assert forall|j: int| root <= j < ts2.len() implies (#[trigger] ts2[j]).wf() by {
        if j < n - 1 {
            assert(ts[j].wf());
        }
    }
}

/// A root table whose slots are all terminal holds nothing that its successor does not
/// hold: the root may move on, and the table may be released.
pub proof fn lemma_promote<K: StableHash, V: Copy>(ts: Seq<KVs<K, V>>, root: int, shell: KVs<K, V>)
    requires
        chain_inv(ts, root),
        root + 1 < ts.len(),
        ts[root].all_terminal(),
        shell.cap() == 0,
        shell.chm == ts[root].chm,
    ensures
        chain_inv(ts.update(root, shell), root + 1),
        forall|a: int, k: K|
            root < a ==> #[trigger] chain_slot(ts.update(root, shell), a, k) == chain_slot(ts, a, k),
        forall|k: K| #[trigger] chain_slot(ts, root, k) == chain_slot(ts, root + 1, k),
{
    let ts2 = ts.update(root, shell);
    assert forall|a: int, k: K| root < a implies #[trigger] chain_slot(ts2, a, k) == chain_slot(
        ts,
        a,
        k,
    ) by {
        lemma_same_above(ts, ts2, a, k);
    }
    assert forall|k: K| #[trigger] chain_slot(ts, root, k) == chain_slot(ts, root + 1, k) by {
        if ts[root].has_key(k) {
            let i = ts[root].slot_of(k);
            assert(ts[root].terminal(i));
        }
    }
    assert forall|j: int| 0 <= j < ts2.len() implies {
        &&& (#[trigger] ts2[j]).chm.newkvs == link_of(ts2.len() as int, j)
        &&& ts2[j].chm.has_newkvs == ts2[j].chm.newkvs.is_some()
    } by {
        assert(ts[j].chm.newkvs == link_of(ts.len() as int, j));
    }
    assert forall|j: int, j2: int, i: int|
        #![trigger ts2[j].passes(ts2[j2].ks@[i]->Present_0)]
        root + 1 <= j < j2 < ts2.len() && 0 <= i < ts2[j2].cap()
            && ts2[j2].ks@[i] is Present implies ts2[j].passes(ts2[j2].ks@[i]->Present_0) by {
        assert(ts[j].passes(ts[j2].ks@[i]->Present_0));
    }
    assert forall|j: int, i: int|
        #![trigger ts2[j].vs@[i]]
        root + 1 <= j < ts2.len() && 0 <= i < ts2[j].cap() && ts2[j].ks@[i] is Present
            && ts2[j].vs@[i] is Prime implies {
        let c = chain_slot(ts2, j + 1, ts2[j].ks@[i]->Present_0);
        c is Empty || c == Value::Present(ts2[j].vs@[i]->Prime_0)
    } by {
        assert(ts[j].vs@[i] == ts2[j].vs@[i]);
        assert(chain_slot(ts2, j + 1, ts2[j].ks@[i]->Present_0) == chain_slot(
            ts,
            j + 1,
            ts2[j].ks@[i]->Present_0,
        ));
    }
    assert forall|j: int| root + 1 <= j < ts2.len() implies (#[trigger] ts2[j]).wf() by {
        assert(ts[j].wf());
    }
}

} // verus!
