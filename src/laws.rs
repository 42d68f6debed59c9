//! Properties of the table that follow from its operations' contracts,
//! stated over the mappings those contracts produce.
use crate::key::HashKey;
use crate::table::insert_all;
use vstd::prelude::*;

verus! {

/// After `insert(k, v)` the table maps `k` to `v`, so `get(k)` returns `v`.
pub proof fn lemma_insert_then_get<V>(before: Map<Seq<u8>, V>, k: Seq<u8>, v: V)
    ensures
        before.insert(k, v).contains_key(k),
        before.insert(k, v)[k] == v,
{
}

/// Inserting `k -> v1` and then `k -> v2`: the second insertion returns
/// `v1`, leaves `k` mapped to `v2`, and does not change the length.
pub proof fn lemma_overwrite<V>(before: Map<Seq<u8>, V>, k: Seq<u8>, v1: V, v2: V)
    requires
        before.dom().finite(),
    ensures
        before.insert(k, v1).contains_key(k),
        before.insert(k, v1)[k] == v1,
        before.insert(k, v1).insert(k, v2)[k] == v2,
        before.insert(k, v1).insert(k, v2).len() == before.insert(k, v1).len(),
{
    assert(before.insert(k, v1).insert(k, v2).dom() =~= before.insert(k, v1).dom());
}

/// Inserting `k -> v` and then removing `k`: the removal returns `v`, `k`
/// is absent afterwards, and the length drops by one.
pub proof fn lemma_insert_then_remove<V>(before: Map<Seq<u8>, V>, k: Seq<u8>, v: V)
    requires
        before.dom().finite(),
    ensures
        before.insert(k, v).contains_key(k),
        before.insert(k, v)[k] == v,
        !before.insert(k, v).remove(k).contains_key(k),
        before.insert(k, v).remove(k).len() + 1 == before.insert(k, v).len(),
{
}

/// A new table is empty; after one insertion of a key it holds one pair.
pub proof fn lemma_lengths<V>(k: Seq<u8>, v: V)
    ensures
        Map::<Seq<u8>, V>::empty().len() == 0,
        Map::<Seq<u8>, V>::empty().insert(k, v).len() == 1,
{
    assert(Map::<Seq<u8>, V>::empty().insert(k, v).dom() =~= set![k]);
}

/// `entry(k).or_insert(v1)` on an absent key stores `v1`; a second
/// `entry(k)` then finds the key present, so `or_insert(v2)` yields `v1`.
pub proof fn lemma_entry_keeps_first<V>(before: Map<Seq<u8>, V>, k: Seq<u8>, v1: V, v2: V)
    requires
        !before.contains_key(k),
    ensures
        before.insert(k, v1).contains_key(k),
        before.insert(k, v1)[k] == v1,
        before.insert(k, v1).insert(k, before.insert(k, v1)[k]) == before.insert(k, v1),
{
    assert(before.insert(k, v1).insert(k, v1) =~= before.insert(k, v1));
}

/// Storing pairs with pairwise distinct keys into an empty table yields
/// one entry per pair, each key with its value, however often the table
/// grew on the way.
pub proof fn lemma_distinct_inserts<K: HashKey, V>(ps: Seq<(K, V)>)
    requires
        forall|a: int, b: int|
            0 <= a < ps.len() && 0 <= b < ps.len() && a != b ==> (#[trigger] ps[a]).0.key_bytes() != (
            #[trigger] ps[b]).0.key_bytes(),
    ensures
        insert_all(Map::<Seq<u8>, V>::empty(), ps).dom().finite(),
        insert_all(Map::<Seq<u8>, V>::empty(), ps).len() == ps.len(),
        forall|i: int|
            0 <= i < ps.len() ==> insert_all(Map::<Seq<u8>, V>::empty(), ps).contains_key(
                (#[trigger] ps[i]).0.key_bytes(),
            ) && insert_all(Map::<Seq<u8>, V>::empty(), ps)[ps[i].0.key_bytes()] == ps[i].1,
    decreases ps.len(),
{
    if ps.len() > 0 {
        let front = ps.drop_last();
        assert forall|a: int, b: int|
            0 <= a < front.len() && 0 <= b < front.len() && a != b implies (#[trigger] front[a]).0.key_bytes()
            != (#[trigger] front[b]).0.key_bytes() by {
            assert(front[a] == ps[a] && front[b] == ps[b]);
        }
        lemma_distinct_inserts(front);
        let m = insert_all(Map::<Seq<u8>, V>::empty(), front);
        let last = ps.last();
        let kl = last.0.key_bytes();
        if m.contains_key(kl) {
            assert(exists|i: int| 0 <= i < front.len() && (#[trigger] front[i]).0.key_bytes() == kl) by {
                lemma_keys_from(front);
            }
            let i = choose|i: int| 0 <= i < front.len() && (#[trigger] front[i]).0.key_bytes() == kl;
            assert(ps[i] == front[i]);
            assert(ps[ps.len() - 1] == last);
        }
        assert forall|i: int| 0 <= i < ps.len() implies insert_all(Map::<Seq<u8>, V>::empty(), ps).contains_key(
            (#[trigger] ps[i]).0.key_bytes(),
        ) && insert_all(Map::<Seq<u8>, V>::empty(), ps)[ps[i].0.key_bytes()] == ps[i].1 by {
            if i < ps.len() - 1 {
                assert(front[i] == ps[i]);
                assert(ps[i].0.key_bytes() != ps[ps.len() - 1].0.key_bytes());
            }
        }
    }
}

/// Every key of the mapping built from `ps` is the key of one of its pairs.
proof fn lemma_keys_from<K: HashKey, V>(ps: Seq<(K, V)>)
    ensures
        forall|k: Seq<u8>|
            #[trigger] insert_all(Map::<Seq<u8>, V>::empty(), ps).contains_key(k) ==> exists|i: int|
                0 <= i < ps.len() && (#[trigger] ps[i]).0.key_bytes() == k,
    decreases ps.len(),
{
    if ps.len() > 0 {
        let front = ps.drop_last();
        lemma_keys_from(front);
        assert forall|k: Seq<u8>| #[trigger] insert_all(Map::<Seq<u8>, V>::empty(), ps).contains_key(k) implies exists|i: int|
            0 <= i < ps.len() && (#[trigger] ps[i]).0.key_bytes() == k by {
            if k == ps.last().0.key_bytes() {
                assert(ps[ps.len() - 1].0.key_bytes() == k);
            } else {
                assert(insert_all(Map::<Seq<u8>, V>::empty(), ps) == insert_all(Map::<Seq<u8>, V>::empty(), front).insert(
                    ps.last().0.key_bytes(),
                    ps.last().1,
                ));
                assert(insert_all(Map::<Seq<u8>, V>::empty(), front).contains_key(k));
                let i = choose|i: int| 0 <= i < front.len() && (#[trigger] front[i]).0.key_bytes() == k;
                assert(ps[i] == front[i]);
            }
        }
    }
}

} // verus!
