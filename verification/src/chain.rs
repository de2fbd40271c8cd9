//! The chain of tables: a table, its successor, the successor of that, and
//! so on. What the map holds for a key is read off the chain from the root
//! table onward.

use vstd::prelude::*;
use crate::slot::{Key, StableHash, Value};
use crate::table::KVs;

verus! {

/// The successor that table `j` of a chain of `n` tables records.
pub open spec fn link_of(n: int, j: int) -> Option<usize> {
    if j + 1 < n {
        Some((j + 1) as usize)
    } else {
        None
    }
}

/// What the chain holds for `k`, read from table `j` onward: empty where nothing was ever
/// written, a tombstone where the last write deleted, or the value.
///
/// A table that does not hold `k`, or has moved it out, hands the question to its
/// successor. A frozen value still answers for itself: it is moved out only once the
/// successor answers the same.
pub open spec fn chain_slot<K: StableHash, V: Copy>(ts: Seq<KVs<K, V>>, j: int, k: K) -> Value<V>
    decreases ts.len() - j,
{
    if j < 0 || j >= ts.len() {
        Value::Empty
    } else {
        match ts[j].local(k) {
            None => chain_slot(ts, j + 1, k),
            Some(Value::TombPrime) => chain_slot(ts, j + 1, k),
            Some(Value::Prime(v)) => Value::Present(v),
            Some(v) => v,
        }
    }
}

/// A deletion may be forgotten by a migration: nothing is moved for a deleted key.
pub open spec fn fades<V>(a: Value<V>, b: Value<V>) -> bool {
    a == b || (a is TombStone && b is Empty)
}

/// Every table records the table after it as its successor, and the last one records none.
pub open spec fn linked<K: StableHash, V: Copy>(ts: Seq<KVs<K, V>>) -> bool {
    forall|j: int|
        0 <= j < ts.len() ==> {
            &&& (#[trigger] ts[j]).chm.newkvs == link_of(ts.len() as int, j)
            &&& ts[j].chm.has_newkvs == ts[j].chm.newkvs.is_some()
        }
}

/// A key that a later table holds is one that every earlier table hands on.
pub open spec fn forward<K: StableHash, V: Copy>(ts: Seq<KVs<K, V>>, root: int) -> bool {
    forall|j: int, j2: int, i: int|
        #![trigger ts[j].passes(ts[j2].ks@[i]->Present_0)]
        root <= j < j2 < ts.len() && 0 <= i < ts[j2].cap() && ts[j2].ks@[i] is Present
            ==> ts[j].passes(ts[j2].ks@[i]->Present_0)
}

/// Behind a frozen value the chain holds nothing for the key, or that same value.
pub open spec fn frozen_ok<K: StableHash, V: Copy>(ts: Seq<KVs<K, V>>, root: int) -> bool {
    forall|j: int, i: int|
        #![trigger ts[j].vs@[i]]
        root <= j < ts.len() && 0 <= i < ts[j].cap() && ts[j].ks@[i] is Present
            && ts[j].vs@[i] is Prime ==> {
            let c = chain_slot(ts, j + 1, ts[j].ks@[i]->Present_0);
            c is Empty || c == Value::Present(ts[j].vs@[i]->Prime_0)
        }
}

/// The invariant of a chain whose tables before `root` have been released.
pub open spec fn chain_inv<K: StableHash, V: Copy>(ts: Seq<KVs<K, V>>, root: int) -> bool {
    &&& 0 <= root < ts.len()
    &&& linked(ts)
    &&& forall|j: int| 0 <= j < root ==> (#[trigger] ts[j]).cap() == 0
    &&& forall|j: int| root <= j < ts.len() ==> (#[trigger] ts[j]).wf()
    &&& ts[ts.len() - 1].untouched()
    &&& forward(ts, root)
    &&& frozen_ok(ts, root)
}

/// Every terminal slot of every table has been credited.
pub open spec fn no_debt<K: StableHash, V: Copy>(ts: Seq<KVs<K, V>>, root: int) -> bool {
    forall|j: int| root <= j < ts.len() ==> (#[trigger] ts[j]).debt() == 0
}

/// Every table before `j`, from the root on, hands `k` on.
pub open spec fn routed<K: StableHash, V: Copy>(ts: Seq<KVs<K, V>>, root: int, j: int, k: K) -> bool {
    forall|j0: int| root <= j0 < j ==> (#[trigger] ts[j0]).passes(k)
}

/// Whatever value of `k` is frozen in a table before `j` is the value `putval`.
pub open spec fn agrees_below<K: StableHash, V: Copy>(
    ts: Seq<KVs<K, V>>,
    root: int,
    j: int,
    k: K,
    putval: Value<V>,
) -> bool {
    forall|j0: int, i: int|
        #![trigger ts[j0].vs@[i]]
        root <= j0 < j && 0 <= i < ts[j0].cap() && ts[j0].ks@[i] == Key::Present(k)
            && ts[j0].vs@[i] is Prime ==> putval == Value::Present(ts[j0].vs@[i]->Prime_0)
}

/// No table from `j` on holds `k`.
pub open spec fn absent_from<K: StableHash, V: Copy>(ts: Seq<KVs<K, V>>, j: int, k: K) -> bool {
    forall|j2: int| j <= j2 < ts.len() ==> !(#[trigger] ts[j2]).has_key(k)
}

/// The length of the chain, and one more if its last table has no room for `k`: no walk
/// for `k` goes further than this.
pub open spec fn span<K: StableHash, V: Copy>(ts: Seq<KVs<K, V>>, k: K) -> int {
    ts.len() + if ts[ts.len() - 1].fits(k) {
        0int
    } else {
        1int
    }
}

/// The two chains hold the same for every key, from every table on.
pub open spec fn same_chain<K: StableHash, V: Copy>(ts: Seq<KVs<K, V>>, ts2: Seq<KVs<K, V>>) -> bool {
    forall|a: int, k: K| 0 <= a ==> #[trigger] chain_slot(ts2, a, k) == chain_slot(ts, a, k)
}

/// The second chain holds what the first holds, but for deletions that it forgot.
pub open spec fn faded<K: StableHash, V: Copy>(ts: Seq<KVs<K, V>>, ts2: Seq<KVs<K, V>>) -> bool {
    forall|a: int, k: K| 0 <= a ==> fades(chain_slot(ts, a, k), #[trigger] chain_slot(ts2, a, k))
}

/// Read from any table up to `j`, the second chain holds what the first holds, but for
/// deletions that it forgot.
pub open spec fn faded_upto<K: StableHash, V: Copy>(ts: Seq<KVs<K, V>>, ts2: Seq<KVs<K, V>>, j: int) -> bool {
    forall|a: int, k: K|
        0 <= a <= j ==> fades(chain_slot(ts, a, k), #[trigger] chain_slot(ts2, a, k))
}

/// The two chains hold the same for every key but `k`.
pub open spec fn same_but<K: StableHash, V: Copy>(ts: Seq<KVs<K, V>>, ts2: Seq<KVs<K, V>>, k: K) -> bool {
    forall|a: int, k2: K|
        0 <= a && k2 != k ==> #[trigger] chain_slot(ts2, a, k2) == chain_slot(ts, a, k2)
}

/// The two chains hold the same for every key but `k`, but for deletions that the second
/// forgot.
pub open spec fn faded_but<K: StableHash, V: Copy>(ts: Seq<KVs<K, V>>, ts2: Seq<KVs<K, V>>, k: K) -> bool {
    forall|a: int, k2: K|
        0 <= a && k2 != k ==> fades(chain_slot(ts, a, k2), #[trigger] chain_slot(ts2, a, k2))
}

/// Read from any table up to `j`, the second chain holds for every key but `k` what the
/// first holds, but for deletions that it forgot.
pub open spec fn faded_but_upto<K: StableHash, V: Copy>(
    ts: Seq<KVs<K, V>>,
    ts2: Seq<KVs<K, V>>,
    k: K,
    j: int,
) -> bool {
    forall|a: int, k2: K|
        0 <= a <= j && k2 != k ==> fades(chain_slot(ts, a, k2), #[trigger] chain_slot(ts2, a, k2))
}

/// The tables owe the same credit in both chains.
pub open spec fn same_debts<K: StableHash, V: Copy>(ts: Seq<KVs<K, V>>, ts2: Seq<KVs<K, V>>) -> bool {
    forall|t: int| 0 <= t < ts.len() ==> (#[trigger] ts2[t]).debt() == ts[t].debt()
}

/// The tables owe the same credit in both chains, but that table `j` owes `w` more.
pub open spec fn debts_but<K: StableHash, V: Copy>(
    ts: Seq<KVs<K, V>>,
    ts2: Seq<KVs<K, V>>,
    j: int,
    w: int,
) -> bool {
    forall|t: int|
        0 <= t < ts.len() ==> (#[trigger] ts2[t]).debt() == ts[t].debt() + if t == j {
            w
        } else {
            0
        }
}

/// The chain never answers with a primed value.
pub proof fn lemma_chain_slot_plain<K: StableHash, V: Copy>(ts: Seq<KVs<K, V>>, j: int, k: K)
    ensures
        !chain_slot(ts, j, k).is_prime(),
    decreases ts.len() - j,
{
    if 0 <= j < ts.len() {
        lemma_chain_slot_plain(ts, j + 1, k);
    }
}

/// Behind the last table the chain holds nothing.
pub proof fn lemma_beyond<K: StableHash, V: Copy>(ts: Seq<KVs<K, V>>, a: int, k: K)
    requires
        a >= ts.len(),
    ensures
        chain_slot(ts, a, k) is Empty,
{
}

/// Where no table from `j` on holds `k`, the chain holds nothing for it.
pub proof fn lemma_chain_slot_absent<K: StableHash, V: Copy>(ts: Seq<KVs<K, V>>, j: int, k: K)
    requires
        absent_from(ts, j, k),
        0 <= j,
    ensures
        chain_slot(ts, j, k) is Empty,
    decreases ts.len() - j,
{
    if j < ts.len() {
        assert(!ts[j].has_key(k));
        lemma_chain_slot_absent(ts, j + 1, k);
    }
}

/// A table that does not hand `k` on is the last that holds anything for it.
pub proof fn lemma_stops_here<K: StableHash, V: Copy>(ts: Seq<KVs<K, V>>, root: int, j: int, k: K)
    requires
        chain_inv(ts, root),
        root <= j < ts.len(),
        !ts[j].passes(k),
    ensures
        absent_from(ts, j + 1, k),
        chain_slot(ts, j + 1, k) is Empty,
{
    assert forall|j2: int| j + 1 <= j2 < ts.len() implies !(#[trigger] ts[j2]).has_key(k) by {
        if ts[j2].has_key(k) {
            let i = ts[j2].slot_of(k);
            assert(ts[j2].ks@[i] is Present);
            assert(ts[j].passes(ts[j2].ks@[i]->Present_0));
        }
    }
    lemma_chain_slot_absent(ts, j + 1, k);
}

/// From a table that is released, or does not hold `k`, or has moved `k` out, the chain
/// holds for `k` what it holds from the successor on.
pub proof fn lemma_hands_on<K: StableHash, V: Copy>(ts: Seq<KVs<K, V>>, j: int, k: K)
    requires
        0 <= j < ts.len(),
        ts[j].cap() == 0 || ts[j].local(k) is None || ts[j].local(k) == Some(Value::<V>::TombPrime),
    ensures
        chain_slot(ts, j, k) == chain_slot(ts, j + 1, k),
{
    if ts[j].cap() == 0 {
        assert(!ts[j].has_key(k));
    }
}

/// Through tables that are released, or do not hold `k`, or have moved `k` out, the chain
/// holds for `k` what it holds behind them.
pub proof fn lemma_skip<K: StableHash, V: Copy>(ts: Seq<KVs<K, V>>, a: int, b: int, k: K)
    requires
        0 <= a <= b,
        forall|t: int|
            a <= t < b && t < ts.len() ==> (#[trigger] ts[t]).cap() == 0 || ts[t].local(k) is None
                || ts[t].local(k) == Some(Value::<V>::TombPrime),
    ensures
        chain_slot(ts, a, k) == chain_slot(ts, b, k),
    decreases b - a,
{
    if a < b {
        lemma_skip(ts, a + 1, b, k);
        if a < ts.len() {
            assert(ts[a].cap() == 0 || ts[a].local(k) is None || ts[a].local(k) == Some(
                Value::<V>::TombPrime,
            ));
            lemma_hands_on(ts, a, k);
        } else {
            assert(chain_slot(ts, a, k) is Empty);
            lemma_beyond(ts, b, k);
        }
    }
}

/// Two chains whose tables from `j` on say the same of `k` hold the same for it from there.
pub proof fn lemma_same_above<K: StableHash, V: Copy>(
    ts: Seq<KVs<K, V>>,
    ts2: Seq<KVs<K, V>>,
    j: int,
    k: K,
)
    requires
        0 <= j,
        ts.len() <= ts2.len(),
        forall|t: int| j <= t < ts.len() ==> (#[trigger] ts2[t]).local(k) == ts[t].local(k),
        forall|t: int| ts.len() <= t < ts2.len() ==> (#[trigger] ts2[t]).local(k) is None,
    ensures
        chain_slot(ts2, j, k) == chain_slot(ts, j, k),
    decreases ts2.len() - j,
{
    if j < ts2.len() {
        lemma_same_above(ts, ts2, j + 1, k);
        if j < ts.len() {
            assert(ts2[j].local(k) == ts[j].local(k));
        } else {
            assert(ts2[j].local(k) is None);
        }
    }
}

/// Two chains that say the same of `k` in every table before `j`, and hold for it from `j`
/// on the same but for a forgotten deletion, hold the same but for that from any table.
pub proof fn lemma_fades_below<K: StableHash, V: Copy>(
    ts: Seq<KVs<K, V>>,
    ts2: Seq<KVs<K, V>>,
    j: int,
    k: K,
    a: int,
)
    requires
        0 <= a <= j,
        j <= ts.len() <= ts2.len(),
        forall|t: int| a <= t < j ==> (#[trigger] ts2[t]).local(k) == ts[t].local(k),
        fades(chain_slot(ts, j, k), chain_slot(ts2, j, k)),
    ensures
        fades(chain_slot(ts, a, k), chain_slot(ts2, a, k)),
        chain_slot(ts2, j, k) == chain_slot(ts, j, k) ==> chain_slot(ts2, a, k) == chain_slot(
            ts,
            a,
            k,
        ),
    decreases j - a,
{
    if a < j {
        lemma_fades_below(ts, ts2, j, k, a + 1);
        assert(ts2[a].local(k) == ts[a].local(k));
    }
}

/// Two chains that say the same of `k` in every table before `j` hold the same for it from
/// a table `a` on, unless the answer comes from table `j` or behind it.
pub proof fn lemma_either_below<K: StableHash, V: Copy>(
    ts: Seq<KVs<K, V>>,
    ts2: Seq<KVs<K, V>>,
    j: int,
    k: K,
    a: int,
)
    requires
        0 <= a <= j,
        j <= ts.len(),
        ts.len() == ts2.len(),
        forall|t: int| a <= t < j ==> (#[trigger] ts2[t]).local(k) == ts[t].local(k),
    ensures
        chain_slot(ts2, a, k) == chain_slot(ts, a, k) || (chain_slot(ts2, a, k) == chain_slot(
            ts2,
            j,
            k,
        ) && chain_slot(ts, a, k) == chain_slot(ts, j, k)),
    decreases j - a,
{
    if a < j {
        lemma_either_below(ts, ts2, j, k, a + 1);
        assert(ts2[a].local(k) == ts[a].local(k));
    }
}

/// Where a table holds a frozen value of `k`, the chain holds that value for `k` from any
/// earlier table on.
pub proof fn lemma_frozen_chain<K: StableHash, V: Copy>(
    ts: Seq<KVs<K, V>>,
    root: int,
    j: int,
    idx: int,
    a: int,
)
    requires
        chain_inv(ts, root),
        root <= a <= j < ts.len(),
        0 <= idx < ts[j].cap(),
        ts[j].ks@[idx] is Present,
        ts[j].vs@[idx] is Prime,
    ensures
        chain_slot(ts, a, ts[j].ks@[idx]->Present_0) == Value::Present(ts[j].vs@[idx]->Prime_0),
    decreases j - a,
{
    let k = ts[j].ks@[idx]->Present_0;
    ts[j].lemma_local_at(idx, k);
    if a < j {
        lemma_frozen_chain(ts, root, j, idx, a + 1);
        assert(ts[a].passes(ts[j].ks@[idx]->Present_0));
        if ts[a].has_key(k) {
            let i = ts[a].slot_of(k);
            assert(ts[a].ks@[i] is Present);
            if ts[a].vs@[i] is Prime {
                assert(ts[a].ks@[i]->Present_0 == k);
            }
        }
    }
}

/// Where a table holds a frozen value of `k`, every earlier table hands `k` on, and
/// whatever is frozen for `k` in an earlier table is that same value.
pub proof fn lemma_frozen_agree<K: StableHash, V: Copy>(
    ts: Seq<KVs<K, V>>,
    root: int,
    j: int,
    idx: int,
)
    requires
        chain_inv(ts, root),
        root <= j < ts.len(),
        0 <= idx < ts[j].cap(),
        ts[j].ks@[idx] is Present,
        ts[j].vs@[idx] is Prime,
    ensures
        routed(ts, root, j + 1, ts[j].ks@[idx]->Present_0),
        agrees_below(
            ts,
            root,
            j + 1,
            ts[j].ks@[idx]->Present_0,
            Value::Present(ts[j].vs@[idx]->Prime_0),
        ),
{
    let k = ts[j].ks@[idx]->Present_0;
    let v = ts[j].vs@[idx]->Prime_0;
    ts[j].lemma_local_at(idx, k);
    assert forall|j0: int| root <= j0 < j + 1 implies (#[trigger] ts[j0]).passes(k) by {
        if j0 < j {
            assert(ts[j0].passes(ts[j].ks@[idx]->Present_0));
        }
    }
    assert forall|j0: int, i: int|
        #![trigger ts[j0].vs@[i]]
        root <= j0 < j + 1 && 0 <= i < ts[j0].cap() && ts[j0].ks@[i] == Key::Present(k)
            && ts[j0].vs@[i] is Prime implies Value::Present(v) == Value::Present(
        ts[j0].vs@[i]->Prime_0,
    ) by {
        lemma_frozen_chain(ts, root, j, idx, j0);
        ts[j0].lemma_local_at(i, k);
    }
}

/// A chain holds what it holds.
pub proof fn lemma_faded_refl<K: StableHash, V: Copy>(ts: Seq<KVs<K, V>>)
    ensures
        faded(ts, ts),
        same_chain(ts, ts),
{
}

/// Chains that hold the same hold the same but for deletions forgotten.
pub proof fn lemma_same_is_faded<K: StableHash, V: Copy>(ts: Seq<KVs<K, V>>, ts2: Seq<KVs<K, V>>)
    requires
        same_chain(ts, ts2),
    ensures
        faded(ts, ts2),
{
    assert forall|a: int, k: K| 0 <= a implies fades(
        chain_slot(ts, a, k),
        #[trigger] chain_slot(ts2, a, k),
    ) by {}
}

/// What holds read from any table holds read from any table up to `j`.
pub proof fn lemma_faded_is_upto<K: StableHash, V: Copy>(ts: Seq<KVs<K, V>>, ts2: Seq<KVs<K, V>>, j: int)
    requires
        faded(ts, ts2),
    ensures
        faded_upto(ts, ts2, j),
{
    assert forall|a: int, k: K| 0 <= a <= j implies fades(
        chain_slot(ts, a, k),
        #[trigger] chain_slot(ts2, a, k),
    ) by {}
}

/// Forgetting deletions, and forgetting deletions again, is forgetting deletions.
pub proof fn lemma_faded_upto_trans<K: StableHash, V: Copy>(
    ts: Seq<KVs<K, V>>,
    ts1: Seq<KVs<K, V>>,
    ts2: Seq<KVs<K, V>>,
    j: int,
)
    requires
        faded_upto(ts, ts1, j),
        faded_upto(ts1, ts2, j),
    ensures
        faded_upto(ts, ts2, j),
{
    assert forall|a: int, k: K| 0 <= a <= j implies fades(
        chain_slot(ts, a, k),
        #[trigger] chain_slot(ts2, a, k),
    ) by {
        assert(fades(chain_slot(ts, a, k), chain_slot(ts1, a, k)));
        assert(fades(chain_slot(ts1, a, k), chain_slot(ts2, a, k)));
    }
}

/// What holds read from any table up to `j` holds read from any table up to an earlier one.
pub proof fn lemma_faded_upto_shrink<K: StableHash, V: Copy>(
    ts: Seq<KVs<K, V>>,
    ts2: Seq<KVs<K, V>>,
    j: int,
    j2: int,
)
    requires
        faded_upto(ts, ts2, j),
        j2 <= j,
    ensures
        faded_upto(ts, ts2, j2),
{
    assert forall|a: int, k2: K| 0 <= a <= j2 implies fades(
        chain_slot(ts, a, k2),
        #[trigger] chain_slot(ts2, a, k2),
    ) by {}
}

/// What holds of every key, read from any table up to `j`, holds of every key but `k`,
/// read from any table up to an earlier one.
pub proof fn lemma_faded_upto_weaken<K: StableHash, V: Copy>(
    ts: Seq<KVs<K, V>>,
    ts2: Seq<KVs<K, V>>,
    k: K,
    j: int,
    j2: int,
)
    requires
        faded_upto(ts, ts2, j),
        j2 <= j,
    ensures
        faded_but_upto(ts, ts2, k, j2),
{
    assert forall|a: int, k2: K| 0 <= a <= j2 && k2 != k implies fades(
        chain_slot(ts, a, k2),
        #[trigger] chain_slot(ts2, a, k2),
    ) by {}
}

/// Chains that hold the same for every key but `k` hold the same for those keys but for
/// deletions forgotten.
pub proof fn lemma_same_but_is_faded_but<K: StableHash, V: Copy>(
    ts: Seq<KVs<K, V>>,
    ts2: Seq<KVs<K, V>>,
    k: K,
)
    requires
        same_but(ts, ts2, k),
    ensures
        faded_but(ts, ts2, k),
{
    assert forall|a: int, k2: K| 0 <= a && k2 != k implies fades(
        chain_slot(ts, a, k2),
        #[trigger] chain_slot(ts2, a, k2),
    ) by {}
}

/// What holds of every key but `k`, read from any table, holds read from any table up to
/// `j`.
pub proof fn lemma_faded_but_is_upto<K: StableHash, V: Copy>(
    ts: Seq<KVs<K, V>>,
    ts2: Seq<KVs<K, V>>,
    k: K,
    j: int,
)
    requires
        faded_but(ts, ts2, k),
    ensures
        faded_but_upto(ts, ts2, k, j),
{
    assert forall|a: int, k2: K| 0 <= a <= j && k2 != k implies fades(
        chain_slot(ts, a, k2),
        #[trigger] chain_slot(ts2, a, k2),
    ) by {}
}

/// Forgetting deletions of keys other than `k`, and again, is forgetting deletions of keys
/// other than `k`.
pub proof fn lemma_faded_but_upto_trans<K: StableHash, V: Copy>(
    ts: Seq<KVs<K, V>>,
    ts1: Seq<KVs<K, V>>,
    ts2: Seq<KVs<K, V>>,
    k: K,
    j: int,
    j2: int,
)
    requires
        faded_but_upto(ts, ts1, k, j),
        faded_but_upto(ts1, ts2, k, j2),
        j <= j2,
    ensures
        faded_but_upto(ts, ts2, k, j),
{
    assert forall|a: int, k2: K| 0 <= a <= j && k2 != k implies fades(
        chain_slot(ts, a, k2),
        #[trigger] chain_slot(ts2, a, k2),
    ) by {
        assert(fades(chain_slot(ts, a, k2), chain_slot(ts1, a, k2)));
        assert(fades(chain_slot(ts1, a, k2), chain_slot(ts2, a, k2)));
    }
}

} // verus!
