//! The table: a bucket array of chains, the load check and resize, lookup,
//! insertion, removal, bulk construction and a cursor over the pairs.
use crate::entry::{Entry, OccupiedEntry, VacantEntry};
use crate::key::{digest, key_hash, keys_equal, HashKey};
use vstd::prelude::*;

verus! {

/// The bucket that a key with these bytes belongs to among `n` buckets.
pub open spec fn index_for(k: Seq<u8>, n: nat) -> int {
    (digest(k) as nat % n) as int
}

/// Whether some pair of `chain` holds a key with bytes `k`.
pub open spec fn chain_has<K: HashKey, V>(chain: Seq<(K, V)>, k: Seq<u8>) -> bool {
    exists|j: int| 0 <= j < chain.len() && (#[trigger] chain[j]).0.key_bytes() == k
}

/// Chain `i` of `n` is sound with respect to the mapping `m`: each pair sits
/// in the bucket of its key, is recorded in `m` with its value, and no key
/// occurs twice.
pub open spec fn chain_ok<K: HashKey, V>(
    chain: Seq<(K, V)>,
    i: int,
    n: nat,
    m: Map<Seq<u8>, V>,
) -> bool {
    &&& forall|j: int|
        0 <= j < chain.len() ==> {
            let k = (#[trigger] chain[j]).0.key_bytes();
            &&& index_for(k, n) == i
            &&& m.contains_key(k)
            &&& m[k] == chain[j].1
        }
    &&& forall|a: int, b: int|
        0 <= a < chain.len() && 0 <= b < chain.len() && a != b ==> (#[trigger] chain[a]).0.key_bytes()
            != (#[trigger] chain[b]).0.key_bytes()
}

/// The bucket count after the load check that precedes an insertion: one
/// bucket for an empty array; twice as many when more than three quarters
/// of a bucket per pair are in use and the doubled count fits in a `usize`;
/// otherwise unchanged.
pub open spec fn count_after_check(n: nat, items: nat) -> nat {
    if n == 0 {
        1
    } else if items > 3 * n / 4 && n <= usize::MAX / 2 {
        2 * n
    } else {
        n
    }
}

/// The pairs of `bs`, bucket after bucket.
pub open spec fn chains_flat<K, V>(bs: Seq<Vec<(K, V)>>) -> Seq<(K, V)>
    decreases bs.len(),
{
    if bs.len() == 0 {
        Seq::empty()
    } else {
        chains_flat(bs.drop_last()) + bs.last()@
    }
}

/// Where bucket `b` of `bs` begins among the flattened pairs.
pub open spec fn chain_start<K, V>(bs: Seq<Vec<(K, V)>>, b: int) -> int {
    chains_flat(bs.take(b)).len() as int
}

proof fn lemma_flat_step<K, V>(bs: Seq<Vec<(K, V)>>, b: int)
    requires
        0 <= b < bs.len(),
    ensures
        chains_flat(bs.take(b + 1)) == chains_flat(bs.take(b)) + bs[b]@,
        chain_start(bs, b + 1) == chain_start(bs, b) + bs[b]@.len(),
{
    assert(bs.take(b + 1).drop_last() =~= bs.take(b));
}

proof fn lemma_flat_prefix<K, V>(bs: Seq<Vec<(K, V)>>, c: int)
    requires
        0 <= c <= bs.len(),
    ensures
        chains_flat(bs.take(c)).len() <= chains_flat(bs).len(),
        forall|i: int|
            0 <= i < chains_flat(bs.take(c)).len() ==> #[trigger] chains_flat(bs)[i] == chains_flat(
                bs.take(c),
            )[i],
    decreases bs.len(),
{
    if c == bs.len() {
        assert(bs.take(c) =~= bs);
    } else {
        let front = bs.drop_last();
        assert(bs.take(c) =~= front.take(c));
        lemma_flat_prefix(front, c);
    }
}

proof fn lemma_flat_index<K, V>(bs: Seq<Vec<(K, V)>>, b: int, j: int)
    requires
        0 <= b < bs.len(),
        0 <= j < bs[b]@.len(),
    ensures
        chain_start(bs, b) + j < chains_flat(bs).len(),
        chains_flat(bs)[chain_start(bs, b) + j] == bs[b]@[j],
{
    lemma_flat_step(bs, b);
    lemma_flat_prefix(bs, b + 1);
    assert(chains_flat(bs.take(b + 1))[chain_start(bs, b) + j] == bs[b]@[j]);
}

proof fn lemma_flat_cover<K, V>(bs: Seq<Vec<(K, V)>>, i: int)
    requires
        0 <= i < chains_flat(bs).len(),
    ensures
        exists|b: int, j: int|
            0 <= b < bs.len() && 0 <= j < bs[b]@.len() && i == chain_start(bs, b) + j
                && chains_flat(bs)[i] == #[trigger] bs[b]@[j],
    decreases bs.len(),
{
    let front = bs.drop_last();
    let last = bs.len() - 1;
    assert(bs.take(last) =~= front);
    if i < chains_flat(front).len() {
        lemma_flat_cover(front, i);
        let (b, j) = choose|b: int, j: int|
            0 <= b < front.len() && 0 <= j < front[b]@.len() && i == chain_start(front, b) + j
                && chains_flat(front)[i] == #[trigger] front[b]@[j];
        assert(bs.take(b) =~= front.take(b));
        assert(bs[b] == front[b]);
    } else {
        let j = i - chains_flat(front).len();
        assert(bs[last] == bs.last());
        assert(chains_flat(bs)[i] == bs[last]@[j]);
    }
}

/// The mapping reached from `m` by storing the pairs of `ps` one after the
/// other, a later pair replacing an earlier one with the same key.
pub open spec fn insert_all<K: HashKey, V>(m: Map<Seq<u8>, V>, ps: Seq<(K, V)>) -> Map<Seq<u8>, V>
    decreases ps.len(),
{
    if ps.len() == 0 {
        m
    } else {
        insert_all(m, ps.drop_last()).insert(ps.last().0.key_bytes(), ps.last().1)
    }
}

/// Storing `ps` into an empty mapping gives at most one key per pair.
pub proof fn lemma_insert_all_len<K: HashKey, V>(ps: Seq<(K, V)>)
    ensures
        insert_all(Map::<Seq<u8>, V>::empty(), ps).dom().finite(),
        insert_all(Map::<Seq<u8>, V>::empty(), ps).len() <= ps.len(),
    decreases ps.len(),
{
    if ps.len() > 0 {
        lemma_insert_all_len(ps.drop_last());
    }
}

/// A hash table with separate chaining.
///
/// Keys are identified by their bytes (see [`HashKey`]); the table's
/// abstract value is the map from those bytes to the stored values.
pub struct HashMap<K, V> {
    buckets: Vec<Vec<(K, V)>>,
    items: usize,
    keys: Ghost<Set<Seq<u8>>>,
}

impl<K: HashKey, V> HashMap<K, V> {
    /// The value of the pair whose key has bytes `k`, read from the bucket
    /// of `k`.
    spec fn lookup(&self, k: Seq<u8>) -> V {
        let c = self.buckets@[index_for(k, self.buckets@.len())]@;
        c[choose|j: int| 0 <= j < c.len() && (#[trigger] c[j]).0.key_bytes() == k].1
    }

    /// The mapping the table holds, from key bytes to values.
    pub closed spec fn view(&self) -> Map<Seq<u8>, V> {
        Map::new(|k: Seq<u8>| self.keys@.contains(k), |k: Seq<u8>| self.lookup(k))
    }

    /// The number of buckets.
    pub closed spec fn bucket_count(&self) -> nat {
        self.buckets@.len()
    }

    /// The bucket layout agrees with the mapping `m`: every pair sits in the
    /// bucket of its key with the value `m` gives it, every key of `m` is
    /// found in its bucket, and the pair count is the size of `m`.
    spec fn laid_out(&self, m: Map<Seq<u8>, V>) -> bool {
        let n = self.buckets@.len();
        &&& m.dom().finite()
        &&& self.items as nat == m.dom().len()
        &&& forall|i: int| 0 <= i < n ==> chain_ok(#[trigger] self.buckets@[i]@, i, n, m)
        &&& forall|k: Seq<u8>|
            #[trigger] m.contains_key(k) ==> n > 0 && chain_has(self.buckets@[index_for(k, n)]@, k)
    }

    /// The table's internal invariant.
    pub closed spec fn wf(&self) -> bool {
        &&& self.laid_out(self@)
        &&& self@.dom() == self.keys@
    }

    /// A layout that agrees with `m`, over the key set of `m`, makes the
    /// table well formed with `m` as its mapping.
    proof fn lemma_laid_out(&self, m: Map<Seq<u8>, V>)
        requires
            self.laid_out(m),
            self.keys@ == m.dom(),
        ensures
            self.wf(),
            self@ == m,
    {
        let n = self.buckets@.len();
        assert forall|k: Seq<u8>| #[trigger] m.contains_key(k) implies self.lookup(k) == m[k] by {
            let c = self.buckets@[index_for(k, n)]@;
            assert(chain_ok(c, index_for(k, n), n, m));
            let j = choose|j: int| 0 <= j < c.len() && (#[trigger] c[j]).0.key_bytes() == k;
            assert(c[j].0.key_bytes() == k);
        }
        assert(self@ =~= m);
        assert(self@.dom() =~= self.keys@);
    }

    /// An empty table, with no buckets allocated.
    pub fn new() -> (r: Self)
        ensures
            r.wf(),
            r@ == Map::<Seq<u8>, V>::empty(),
            r.bucket_count() == 0,
    {
        let r = HashMap { buckets: Vec::new(), items: 0, keys: Ghost(Set::empty()) };
        proof {
            r.lemma_laid_out(Map::empty());
        }
        r
    }

    /// The number of stored pairs.
    pub fn len(&self) -> (r: usize)
        requires
            self.wf(),
        ensures
            r as nat == self@.len(),
    {
        self.items
    }

    /// Whether the table holds no pair.
    pub fn is_empty(&self) -> (r: bool)
        requires
            self.wf(),
        ensures
            r == (self@.len() == 0),
    {
        self.items == 0
    }

    fn bucket<Q: HashKey + ?Sized>(&self, key: &Q) -> (r: usize)
        requires
            self.buckets@.len() > 0,
        ensures
            r as int == index_for(key.key_bytes(), self.buckets@.len()),
            r < self.buckets@.len(),
    {
        let h = key_hash(key);
        (h % (self.buckets.len() as u64)) as usize
    }

    /// Grows the bucket array (to one bucket when there is none, else to
    /// twice as many) and moves every pair to the bucket of its key under
    /// the new count.
    fn resize(&mut self)
        requires
            old(self).wf(),
            old(self).buckets@.len() <= usize::MAX / 2,
        ensures
            final(self).wf(),
            final(self)@ == old(self)@,
            final(self).buckets@.len() == if old(self).buckets@.len() == 0 {
                1
            } else {
                2 * old(self).buckets@.len()
            },
    {
        let n = self.buckets.len();
        let target: usize = if n == 0 {
            1
        } else {
            2 * n
        };
        let ghost m = self@;
        let mut fresh: Vec<Vec<(K, V)>> = Vec::new();
        let mut i: usize = 0;
        while i < target
            invariant
                fresh@.len() == i,
                i <= target,
                forall|t: int| 0 <= t < i ==> (#[trigger] fresh@[t])@.len() == 0,
            decreases target - i,
        {
            fresh.push(Vec::new());
            i = i + 1;
        }
        let mut rest: Vec<Vec<(K, V)>> = Vec::new();
        std::mem::swap(&mut rest, &mut self.buckets);
        while rest.len() > 0
            invariant
                self.keys@ == m.dom(),
                m.dom().finite(),
                self.items as nat == m.dom().len(),
                rest@.len() <= n,
                n > 0 ==> target == 2 * n,
                n == 0 ==> target == 1,
                fresh@.len() == target,
                forall|c: int| 0 <= c < rest@.len() ==> chain_ok(#[trigger] rest@[c]@, c, n as nat, m),
                forall|c: int| 0 <= c < target ==> chain_ok(#[trigger] fresh@[c]@, c, target as nat, m),
                forall|c: int, j: int|
                    0 <= c < target && 0 <= j < fresh@[c]@.len() ==> index_for(
                        (#[trigger] fresh@[c]@[j]).0.key_bytes(),
                        n as nat,
                    ) >= rest@.len(),
                forall|k: Seq<u8>|
                    #[trigger] m.contains_key(k) ==> (n > 0 && index_for(k, n as nat) < rest@.len()
                        && chain_has(rest@[index_for(k, n as nat)]@, k)) || chain_has(
                        fresh@[index_for(k, target as nat)]@,
                        k,
                    ),
            decreases rest@.len(),
        {
            let mut chain = rest.pop().unwrap();
            let ghost c = rest@.len() as int;
            while chain.len() > 0
                invariant
                    self.keys@ == m.dom(),
                    c == rest@.len(),
                    c < n,
                    n > 0,
                    target == 2 * n,
                    fresh@.len() == target,
                    chain_ok(chain@, c, n as nat, m),
                    forall|d: int| 0 <= d < rest@.len() ==> chain_ok(#[trigger] rest@[d]@, d, n as nat, m),
                    forall|d: int| 0 <= d < target ==> chain_ok(#[trigger] fresh@[d]@, d, target as nat, m),
                    forall|d: int, j: int|
                        0 <= d < target && 0 <= j < fresh@[d]@.len() ==> {
                            let k = (#[trigger] fresh@[d]@[j]).0.key_bytes();
                            index_for(k, n as nat) > c || (index_for(k, n as nat) == c && !chain_has(
                                chain@,
                                k,
                            ))
                        },
                    forall|k: Seq<u8>|
                        #[trigger] m.contains_key(k) ==> (index_for(k, n as nat) < c && chain_has(
                            rest@[index_for(k, n as nat)]@,
                            k,
                        )) || (index_for(k, n as nat) == c && chain_has(chain@, k)) || chain_has(
                            fresh@[index_for(k, target as nat)]@,
                            k,
                        ),
                decreases chain@.len(),
            {
                let ghost before = chain@;
                let pair = chain.pop().unwrap();
                let h = key_hash(&pair.0);
                let b = (h % (target as u64)) as usize;
                let ghost kb = pair.0.key_bytes();
                assert(before[before.len() - 1] == pair);
                assert(!chain_has(chain@, kb));
                let ghost fb = fresh@[b as int]@;
                let ghost fresh_before = fresh@;
                assert(!chain_has(fb, kb));
                fresh[b].push(pair);
                assert(fresh@[b as int]@ == fb.push(pair));
                assert forall|k: Seq<u8>| #[trigger] m.contains_key(k) implies (index_for(k, n as nat) < c
                    && chain_has(rest@[index_for(k, n as nat)]@, k)) || (index_for(k, n as nat) == c
                    && chain_has(chain@, k)) || chain_has(fresh@[index_for(k, target as nat)]@, k) by {
                    if k == kb {
                        assert(fresh@[b as int]@[fb.len() as int] == pair);
                    } else if index_for(k, n as nat) == c && chain_has(before, k) {
                        let j = choose|j: int| 0 <= j < before.len() && (#[trigger] before[j]).0.key_bytes() == k;
                        assert(chain@[j] == before[j]);
                    } else if chain_has(fresh_before[index_for(k, target as nat)]@, k) {
                        let d = index_for(k, target as nat);
                        let j = choose|j: int|
                            0 <= j < fresh_before[d]@.len() && (#[trigger] fresh_before[d]@[j]).0.key_bytes() == k;
                        assert(fresh@[d]@[j] == fresh_before[d]@[j]);
                    }
                }
            }
        }
        self.buckets = fresh;
        proof {
            self.lemma_laid_out(m);
        }
    }

    /// Resizes ahead of an insertion when the array is empty or the load
    /// is above three quarters.
    fn grow_if_loaded(&mut self)
        requires
            old(self).wf(),
        ensures
            final(self).wf(),
            final(self)@ == old(self)@,
            final(self).buckets@.len() == count_after_check(old(self).buckets@.len(), old(self)@.len()),
    {
        let n = self.buckets.len();
        if n == 0 || ((self.items as u128) > 3 * (n as u128) / 4 && n <= usize::MAX / 2) {
            self.resize();
        }
    }

    /// Stores `value` under `key`, returning the value it replaces.
    pub fn insert(&mut self, key: K, value: V) -> (r: Option<V>)
        requires
            old(self).wf(),
            old(self)@.len() < usize::MAX,
        ensures
            final(self).wf(),
            final(self)@ == old(self)@.insert(key.key_bytes(), value),
            r == if old(self)@.contains_key(key.key_bytes()) {
                Some(old(self)@[key.key_bytes()])
            } else {
                None::<V>
            },
            final(self).bucket_count() == count_after_check(old(self).bucket_count(), old(self)@.len()),
    {
        self.grow_if_loaded();
        let b = self.bucket(&key);
        let ghost kb = key.key_bytes();
        let ghost m = self@;
        let ghost n = self.buckets@.len();
        let mut j: usize = 0;
        while j < self.buckets[b].len()
            invariant
                self.wf(),
                self@ == m,
                old(self)@ == m,
                n == count_after_check(old(self).buckets@.len(), old(self)@.len()),
                self.buckets@.len() == n,
                b < n,
                b as int == index_for(kb, n),
                kb == key.key_bytes(),
                0 <= j <= self.buckets@[b as int]@.len(),
                forall|t: int| 0 <= t < j ==> (#[trigger] self.buckets@[b as int]@[t]).0.key_bytes() != kb,
            decreases self.buckets@[b as int]@.len() - j,
        {
            if keys_equal(&self.buckets[b][j].0, &key) {
                let ghost before = self.buckets@;
                assert(chain_ok(before[b as int]@, b as int, n, m));
                assert(before[b as int]@[j as int].0.key_bytes() == kb);
                assert(m.contains_key(kb) && m[kb] == before[b as int]@[j as int].1);
                let mut v = value;
                std::mem::swap(&mut self.buckets[b][j].1, &mut v);
                proof {
                    assert(self.buckets@[b as int]@[j as int].1 == value);
                    let m2 = m.insert(kb, value);
                    assert(m2.dom() =~= m.dom());
                    assert forall|i: int| 0 <= i < n implies chain_ok(#[trigger] self.buckets@[i]@, i, n, m2) by {
                        assert(chain_ok(before[i]@, i, n, m));
                        if i == b {
                            assert forall|t: int| 0 <= t < self.buckets@[i]@.len() && t != j implies
                                (#[trigger] self.buckets@[i]@[t]).0.key_bytes() != kb by {
                                assert(self.buckets@[i]@[t] == before[i]@[t]);
                            }
                        } else {
                            assert(self.buckets@[i] == before[i]);
                        }
                    }
                    assert forall|k: Seq<u8>| #[trigger] m2.contains_key(k) implies chain_has(
                        self.buckets@[index_for(k, n)]@,
                        k,
                    ) by {
                        assert(m.contains_key(k));
                        let d = index_for(k, n);
                        let t = choose|t: int| 0 <= t < before[d]@.len() && (#[trigger] before[d]@[t]).0.key_bytes() == k;
                        assert(self.buckets@[d]@[t].0 == before[d]@[t].0);
                    }
                    self.lemma_laid_out(m2);
                }
                return Some(v);
            }
            j = j + 1;
        }
        proof {
            assert(!m.contains_key(kb));
        }
        self.push_pair(b, key, value);
        None
    }

    /// Appends the pair `(key, value)` to bucket `b`, where its key belongs
    /// and is not yet present.
    pub(crate) fn push_pair(&mut self, b: usize, key: K, value: V)
        requires
            old(self).wf(),
            old(self).free_for(b as int, key.key_bytes()),
            old(self)@.len() < usize::MAX,
        ensures
            final(self).wf(),
            final(self)@ == old(self)@.insert(key.key_bytes(), value),
            final(self).holds_at(b as int, old(self).chain_size(b as int) as int, key.key_bytes()),
            final(self).bucket_count() == old(self).bucket_count(),
    {
        let ghost before = self.buckets@;
        let ghost m = self@;
        let ghost kb = key.key_bytes();
        let ghost n = self.buckets@.len();
        self.buckets[b].push((key, value));
        self.items = self.items + 1;
        self.keys = Ghost(self.keys@.insert(kb));
        proof {
            let m2 = m.insert(kb, value);
            assert(m2.dom() =~= m.dom().insert(kb));
            assert forall|i: int| 0 <= i < n implies chain_ok(#[trigger] self.buckets@[i]@, i, n, m2) by {
                assert(chain_ok(before[i]@, i, n, m));
                if i == b {
                    assert(self.buckets@[i]@ == before[i]@.push((key, value)));
                    assert forall|t: int| 0 <= t < before[i]@.len() implies (#[trigger] before[i]@[t]).0.key_bytes() != kb by {
                    }
                } else {
                    assert(self.buckets@[i] == before[i]);
                }
            }
            assert forall|k: Seq<u8>| #[trigger] m2.contains_key(k) implies chain_has(
                self.buckets@[index_for(k, n)]@,
                k,
            ) by {
                let d = index_for(k, n);
                if k == kb {
                    assert(self.buckets@[d]@[before[d]@.len() as int] == (key, value));
                } else {
                    assert(m.contains_key(k));
                    let t = choose|t: int| 0 <= t < before[d]@.len() && (#[trigger] before[d]@[t]).0.key_bytes() == k;
                    assert(self.buckets@[d]@[t] == before[d]@[t]);
                }
            }
            self.lemma_laid_out(m2);
        }
    }


    /// Takes the pair stored under `key` out of the table and returns its
    /// value.
    pub fn remove<Q: HashKey + ?Sized>(&mut self, key: &Q) -> (r: Option<V>)
        requires
            old(self).wf(),
        ensures
            final(self).wf(),
            final(self)@ == old(self)@.remove(key.key_bytes()),
            r == if old(self)@.contains_key(key.key_bytes()) {
                Some(old(self)@[key.key_bytes()])
            } else {
                None::<V>
            },
            final(self).bucket_count() == old(self).bucket_count(),
    {
        if self.buckets.len() == 0 {
            proof {
                assert(self@.remove(key.key_bytes()) =~= self@);
            }
            return None;
        }
        let b = self.bucket(key);
        let ghost kb = key.key_bytes();
        let ghost m = self@;
        let ghost n = self.buckets@.len();
        let mut j: usize = 0;
        while j < self.buckets[b].len()
            invariant
                self.wf(),
                self@ == m,
                old(self)@ == m,
                n == old(self).buckets@.len(),
                self.buckets@.len() == n,
                b < n,
                b as int == index_for(kb, n),
                kb == key.key_bytes(),
                0 <= j <= self.buckets@[b as int]@.len(),
                forall|t: int| 0 <= t < j ==> (#[trigger] self.buckets@[b as int]@[t]).0.key_bytes() != kb,
            decreases self.buckets@[b as int]@.len() - j,
        {
            if keys_equal(&self.buckets[b][j].0, key) {
                let ghost before = self.buckets@;
                assert(chain_ok(before[b as int]@, b as int, n, m));
                assert(before[b as int]@[j as int].0.key_bytes() == kb);
                assert(m.contains_key(kb) && m[kb] == before[b as int]@[j as int].1);
                let pair = self.buckets[b].swap_remove(j);
                self.items = self.items - 1;
                self.keys = Ghost(self.keys@.remove(kb));
                proof {
                    let m2 = m.remove(kb);
                    let old_chain = before[b as int]@;
                    let last = old_chain.len() - 1;
                    assert(m2.dom() =~= m.dom().remove(kb));
                    assert forall|i: int| 0 <= i < n implies chain_ok(#[trigger] self.buckets@[i]@, i, n, m2) by {
                        assert(chain_ok(before[i]@, i, n, m));
                        if i == b {
                            let c = self.buckets@[i]@;
                            assert forall|t: int| 0 <= t < c.len() implies
                                (#[trigger] c[t]) == old_chain[if t == j { last } else { t }] by {
                            }
                            assert forall|t: int| 0 <= t < c.len() implies (#[trigger] c[t]).0.key_bytes() != kb by {
                                assert(c[t] == old_chain[if t == j { last } else { t }]);
                            }
                            assert forall|t1: int, t2: int|
                                0 <= t1 < c.len() && 0 <= t2 < c.len() && t1 != t2 implies (#[trigger] c[t1]).0.key_bytes()
                                    != (#[trigger] c[t2]).0.key_bytes() by {
                                assert(c[t1] == old_chain[if t1 == j { last } else { t1 }]);
                                assert(c[t2] == old_chain[if t2 == j { last } else { t2 }]);
                            }
                        } else {
                            assert(self.buckets@[i] == before[i]);
                        }
                    }
                    assert forall|k: Seq<u8>| #[trigger] m2.contains_key(k) implies chain_has(
                        self.buckets@[index_for(k, n)]@,
                        k,
                    ) by {
                        assert(m.contains_key(k));
                        let d = index_for(k, n);
                        let t = choose|t: int| 0 <= t < before[d]@.len() && (#[trigger] before[d]@[t]).0.key_bytes() == k;
                        if d == b {
                            let t2 = if t == last { j as int } else { t };
                            assert(self.buckets@[d]@[t2] == before[d]@[t]);
                        } else {
                            assert(self.buckets@[d]@[t] == before[d]@[t]);
                        }
                    }
                    self.lemma_laid_out(m2);
                }
                return Some(pair.1);
            }
            j = j + 1;
        }
        proof {
            assert(!m.contains_key(kb));
            assert(m.remove(kb) =~= m);
        }
        None
    }

    /// The number of pairs in bucket `b`.
    pub closed spec fn chain_size(&self, b: int) -> nat {
        self.buckets@[b]@.len()
    }

    /// The key bytes of the pair at offset `at` of bucket `b`.
    pub closed spec fn key_at(&self, b: int, at: int) -> Seq<u8> {
        self.buckets@[b]@[at].0.key_bytes()
    }

    /// Whether offset `at` of bucket `b` holds a pair.
    pub open spec fn has_slot(&self, b: int, at: int) -> bool {
        &&& 0 <= b < self.bucket_count()
        &&& 0 <= at < self.chain_size(b)
    }

    /// Whether the pair at offset `at` of bucket `b` has key bytes `k`.
    pub open spec fn holds_at(&self, b: int, at: int, k: Seq<u8>) -> bool {
        &&& self.has_slot(b, at)
        &&& self.key_at(b, at) == k
    }

    /// Whether bucket `b` is where a key with bytes `k`, absent from the
    /// table, would go.
    pub open spec fn free_for(&self, b: int, k: Seq<u8>) -> bool {
        &&& 0 <= b < self.bucket_count()
        &&& b == index_for(k, self.bucket_count())
        &&& !self@.contains_key(k)
    }

    /// The number of pairs in bucket `b`.
    pub(crate) fn chain_len(&self, b: usize) -> (r: usize)
        requires
            b < self.bucket_count(),
        ensures
            r == self.chain_size(b as int),
    {
        self.buckets[b].len()
    }

    /// `after` is `self` with the value of the pair at offset `at` of bucket
    /// `b` replaced by `v`.
    spec fn value_replaced(&self, after: &Self, b: int, at: int, v: V) -> bool {
        &&& after.keys == self.keys
        &&& after.items == self.items
        &&& after.buckets@.len() == self.buckets@.len()
        &&& forall|i: int| 0 <= i < self.buckets@.len() && i != b ==> after.buckets@[i] == self.buckets@[i]
        &&& after.buckets@[b]@ == self.buckets@[b]@.update(at, (self.buckets@[b]@[at].0, v))
    }

    /// Replacing the value of a pair keeps the table well formed and
    /// changes its mapping at that pair's key alone.
    proof fn lemma_value_replaced(&self, b: int, at: int, k: Seq<u8>)
        requires
            self.wf(),
            self.holds_at(b, at, k),
        ensures
            forall|after: Self, v: V|
                #[trigger] self.value_replaced(&after, b, at, v) ==> after.wf() && after@ == self@.insert(k, v),
    {
        let n = self.buckets@.len();
        let m = self@;
        assert(chain_ok(self.buckets@[b]@, b, n, m));
        assert forall|after: Self, v: V| #[trigger] self.value_replaced(&after, b, at, v) implies after.wf()
            && after@ == self@.insert(k, v) by {
            let m2 = m.insert(k, v);
            assert(m2.dom() =~= m.dom());
            assert forall|i: int| 0 <= i < n implies chain_ok(#[trigger] after.buckets@[i]@, i, n, m2) by {
                assert(chain_ok(self.buckets@[i]@, i, n, m));
                if i == b {
                    assert forall|t: int| 0 <= t < after.buckets@[i]@.len() && t != at implies
                        (#[trigger] after.buckets@[i]@[t]).0.key_bytes() != k by {
                        assert(after.buckets@[i]@[t] == self.buckets@[i]@[t]);
                    }
                }
            }
            assert forall|kk: Seq<u8>| #[trigger] m2.contains_key(kk) implies chain_has(
                after.buckets@[index_for(kk, n)]@,
                kk,
            ) by {
                let d = index_for(kk, n);
                let t = choose|t: int|
                    0 <= t < self.buckets@[d]@.len() && (#[trigger] self.buckets@[d]@[t]).0.key_bytes() == kk;
                assert(after.buckets@[d]@[t].0 == self.buckets@[d]@[t].0);
            }
            after.lemma_laid_out(m2);
        }
    }

    fn slot_value_mut(&mut self, b: usize, at: usize) -> (r: &mut V)
        requires
            b < old(self).buckets@.len(),
            at < old(self).buckets@[b as int]@.len(),
        ensures
            *r == old(self).buckets@[b as int]@[at as int].1,
            old(self).value_replaced(&*final(self), b as int, at as int, *final(r)),
    {
        &mut self.buckets[b][at].1
    }

    /// A mutable reference to the value of the pair at offset `at` of
    /// bucket `b`.
    pub(crate) fn value_at_mut(&mut self, b: usize, at: usize, Ghost(k): Ghost<Seq<u8>>) -> (r: &mut V)
        requires
            old(self).wf(),
            old(self).holds_at(b as int, at as int, k),
        ensures
            old(self)@.contains_key(k),
            *r == old(self)@[k],
            final(self).wf(),
            final(self)@ == old(self)@.insert(k, *final(r)),
            final(self).bucket_count() == old(self).bucket_count(),
    {
        proof {
            assert(chain_ok(self.buckets@[b as int]@, b as int, self.buckets@.len(), self@));
            self.lemma_value_replaced(b as int, at as int, k);
        }
        self.slot_value_mut(b, at)
    }

    /// Finds the slot of `key`: the pair that holds it, or the bucket where
    /// it would go. The load check of [`HashMap::insert`] comes first, so
    /// the bucket stays valid until the entry is used.
    pub fn entry(&mut self, key: K) -> (e: Entry<'_, K, V>)
        requires
            old(self).wf(),
            old(self)@.len() < usize::MAX,
        ensures
            match e {
                Entry::Occupied(o) => {
                    &&& o.valid()
                    &&& o.key_bytes() == key.key_bytes()
                    &&& old(self)@.contains_key(key.key_bytes())
                    &&& o.map@ == old(self)@
                    &&& o.map.bucket_count() == count_after_check(old(self).bucket_count(), old(self)@.len())
                    &&& *final(o.map) == *final(self)
                },
                Entry::Vacant(v) => {
                    &&& v.valid()
                    &&& v.key == key
                    &&& !old(self)@.contains_key(key.key_bytes())
                    &&& v.map@ == old(self)@
                    &&& v.map.bucket_count() == count_after_check(old(self).bucket_count(), old(self)@.len())
                    &&& *final(v.map) == *final(self)
                },
            },
    {
        self.grow_if_loaded();
        let b = self.bucket(&key);
        let ghost kb = key.key_bytes();
        let ghost m = self@;
        let ghost n = self.buckets@.len();
        let mut j: usize = 0;
        while j < self.buckets[b].len()
            invariant
                self.wf(),
                self@ == m,
                old(self)@ == m,
                n == count_after_check(old(self).buckets@.len(), old(self)@.len()),
                self.buckets@.len() == n,
                b < n,
                b as int == index_for(kb, n),
                kb == key.key_bytes(),
                0 <= j <= self.buckets@[b as int]@.len(),
                forall|t: int| 0 <= t < j ==> (#[trigger] self.buckets@[b as int]@[t]).0.key_bytes() != kb,
            decreases self.buckets@[b as int]@.len() - j,
        {
            if keys_equal(&self.buckets[b][j].0, &key) {
                proof {
                    assert(chain_ok(self.buckets@[b as int]@, b as int, n, m));
                }
                return Entry::Occupied(OccupiedEntry { map: self, bucket: b, at: j });
            }
            j = j + 1;
        }
        proof {
            if m.contains_key(kb) {
                let c = self.buckets@[b as int]@;
                let t = choose|t: int| 0 <= t < c.len() && (#[trigger] c[t]).0.key_bytes() == kb;
                assert(c[t].0.key_bytes() != kb);
            }
        }
        Entry::Vacant(VacantEntry { key, map: self, bucket: b })
    }

    /// The stored pairs in bucket order, then in order within each bucket.
    pub closed spec fn pairs(&self) -> Seq<(K, V)> {
        chains_flat(self.buckets@)
    }

    /// The pairs of a well-formed table are its mapping, each key once:
    /// there are as many as the mapping has keys, each is recorded in the
    /// mapping with its value, every key of the mapping is among them, and
    /// no two carry the same key.
    pub proof fn lemma_pairs_cover(&self)
        requires
            self.wf(),
        ensures
            self.pairs().len() == self@.len(),
            forall|i: int|
                0 <= i < self.pairs().len() ==> {
                    let p = #[trigger] self.pairs()[i];
                    self@.contains_key(p.0.key_bytes()) && self@[p.0.key_bytes()] == p.1
                },
            forall|k: Seq<u8>|
                #[trigger] self@.contains_key(k) ==> exists|i: int|
                    0 <= i < self.pairs().len() && (#[trigger] self.pairs()[i]).0.key_bytes() == k,
            forall|i1: int, i2: int|
                0 <= i1 < self.pairs().len() && 0 <= i2 < self.pairs().len() && i1 != i2 ==> (
                #[trigger] self.pairs()[i1]).0.key_bytes() != (#[trigger] self.pairs()[i2]).0.key_bytes(),
    {
        let bs = self.buckets@;
        let n = bs.len();
        let m = self@;
        let ps = self.pairs();
        assert forall|i: int| 0 <= i < ps.len() implies {
            let p = #[trigger] ps[i];
            m.contains_key(p.0.key_bytes()) && m[p.0.key_bytes()] == p.1
        } by {
            lemma_flat_cover(bs, i);
            let (b, j) = choose|b: int, j: int|
                0 <= b < bs.len() && 0 <= j < bs[b]@.len() && i == chain_start(bs, b) + j && ps[i]
                    == #[trigger] bs[b]@[j];
            assert(chain_ok(bs[b]@, b, n, m));
        }
        assert forall|k: Seq<u8>| #[trigger] m.contains_key(k) implies exists|i: int|
            0 <= i < ps.len() && (#[trigger] ps[i]).0.key_bytes() == k by {
            let b = index_for(k, n);
            let j = choose|j: int| 0 <= j < bs[b]@.len() && (#[trigger] bs[b]@[j]).0.key_bytes() == k;
            lemma_flat_index(bs, b, j);
            assert(ps[chain_start(bs, b) + j].0.key_bytes() == k);
        }
        assert forall|i1: int, i2: int|
            0 <= i1 < ps.len() && 0 <= i2 < ps.len() && i1 != i2 implies (#[trigger] ps[i1]).0.key_bytes()
            != (#[trigger] ps[i2]).0.key_bytes() by {
            lemma_flat_cover(bs, i1);
            lemma_flat_cover(bs, i2);
            let (b1, j1) = choose|b: int, j: int|
                0 <= b < bs.len() && 0 <= j < bs[b]@.len() && i1 == chain_start(bs, b) + j && ps[i1]
                    == #[trigger] bs[b]@[j];
            let (b2, j2) = choose|b: int, j: int|
                0 <= b < bs.len() && 0 <= j < bs[b]@.len() && i2 == chain_start(bs, b) + j && ps[i2]
                    == #[trigger] bs[b]@[j];
            assert(chain_ok(bs[b1]@, b1, n, m));
            assert(chain_ok(bs[b2]@, b2, n, m));
        }
        let ks = ps.map_values(|p: (K, V)| p.0.key_bytes());
        assert(ks.no_duplicates()) by {
            assert forall|i1: int, i2: int| 0 <= i1 < ks.len() && 0 <= i2 < ks.len() && i1 != i2 implies ks[i1]
                != ks[i2] by {
                assert(ks[i1] == ps[i1].0.key_bytes());
                assert(ks[i2] == ps[i2].0.key_bytes());
            }
        }
        assert(ks.to_set() =~= m.dom()) by {
            assert forall|k: Seq<u8>| ks.to_set().contains(k) implies m.dom().contains(k) by {
                let i = choose|i: int| 0 <= i < ks.len() && ks[i] == k;
                assert(ps[i] == ps[i]);
            }
            assert forall|k: Seq<u8>| m.dom().contains(k) implies ks.to_set().contains(k) by {
                assert(m.contains_key(k));
                let i = choose|i: int| 0 <= i < ps.len() && (#[trigger] ps[i]).0.key_bytes() == k;
                assert(ks[i] == k);
            }
        }
        ks.unique_seq_to_set();
    }

    /// A cursor over the stored pairs, from the first.
    pub fn iter(&self) -> (it: Iter<'_, K, V>)
        requires
            self.wf(),
        ensures
            it.valid(),
            it.pairs() == self.pairs(),
            it.pos() == 0,
    {
        let it = Iter { map: self, bucket: 0, at: 0 };
        proof {
            assert(self.buckets@.take(0) =~= Seq::<Vec<(K, V)>>::empty());
        }
        it
    }

    /// A table holding `pairs`, stored one after the other in order, so
    /// that a later pair wins over an earlier one with the same key.
    pub fn from_pairs(pairs: Vec<(K, V)>) -> (r: Self)
        ensures
            r.wf(),
            r@ == insert_all(Map::<Seq<u8>, V>::empty(), pairs@),
    {
        let ghost ps = pairs@;
        let n = pairs.len();
        let mut src = pairs;
        let mut rev: Vec<(K, V)> = Vec::new();
        while src.len() > 0
            invariant
                src@.len() + rev@.len() == n,
                n == ps.len(),
                forall|t: int| 0 <= t < src@.len() ==> src@[t] == ps[t],
                forall|t: int| 0 <= t < rev@.len() ==> rev@[t] == ps[n - 1 - t],
            decreases src@.len(),
        {
            let p = src.pop().unwrap();
            rev.push(p);
        }
        let mut map = HashMap::new();
        let mut i: usize = 0;
        while rev.len() > 0
            invariant
                rev@.len() + i == n,
                n == ps.len(),
                forall|t: int| 0 <= t < rev@.len() ==> rev@[t] == ps[n - 1 - t],
                map.wf(),
                map@ == insert_all(Map::<Seq<u8>, V>::empty(), ps.take(i as int)),
            decreases rev@.len(),
        {
            let (k, v) = rev.pop().unwrap();
            proof {
                lemma_insert_all_len(ps.take(i as int));
                assert(ps.take(i as int + 1).drop_last() =~= ps.take(i as int));
                assert(ps[i as int] == (k, v));
            }
            map.insert(k, v);
            i = i + 1;
        }
        proof {
            assert(ps.take(n as int) =~= ps);
        }
        map
    }

    /// Looks up the value stored under `key`.
    pub fn get<Q: HashKey + ?Sized>(&self, key: &Q) -> (r: Option<&V>)
        requires
            self.wf(),
        ensures
            match r {
                Some(v) => self@.contains_key(key.key_bytes()) && *v == self@[key.key_bytes()],
                None => !self@.contains_key(key.key_bytes()),
            },
    {
        if self.buckets.len() == 0 {
            return None;
        }
        let b = self.bucket(key);
        let chain = &self.buckets[b];
        let mut j: usize = 0;
        while j < chain.len()
            invariant
                self.wf(),
                b < self.buckets@.len(),
                b as int == index_for(key.key_bytes(), self.buckets@.len()),
                *chain == self.buckets@[b as int],
                0 <= j <= chain@.len(),
                forall|t: int| 0 <= t < j ==> (#[trigger] chain@[t]).0.key_bytes() != key.key_bytes(),
            decreases chain@.len() - j,
        {
            if keys_equal(&chain[j].0, key) {
                assert(chain_ok(self.buckets@[b as int]@, b as int, self.buckets@.len(), self@));
                return Some(&chain[j].1);
            }
            j = j + 1;
        }
        None
    }

    /// Whether a value is stored under `key`.
    pub fn contains_key<Q: HashKey + ?Sized>(&self, key: &Q) -> (r: bool)
        requires
            self.wf(),
        ensures
            r == self@.contains_key(key.key_bytes()),
    {
        self.get(key).is_some()
    }
}

/// A cursor over the pairs of a table: bucket by bucket, and within a
/// bucket in its current order.
pub struct Iter<'a, K, V> {
    map: &'a HashMap<K, V>,
    bucket: usize,
    at: usize,
}

impl<'a, K: HashKey, V> Iter<'a, K, V> {
    /// The pairs the cursor walks over.
    pub closed spec fn pairs(&self) -> Seq<(K, V)> {
        self.map.pairs()
    }

    /// How many pairs the cursor has passed.
    pub closed spec fn pos(&self) -> int {
        chain_start(self.map.buckets@, self.bucket as int) + self.at
    }

    /// The cursor stands in the bucket array, at most at the end of its
    /// bucket.
    pub closed spec fn valid(&self) -> bool {
        &&& self.bucket <= self.map.buckets@.len()
        &&& self.bucket < self.map.buckets@.len() ==> self.at <= self.map.buckets@[self.bucket as int]@.len()
        &&& self.bucket == self.map.buckets@.len() ==> self.at == 0
    }

    /// The next pair, or `None` once every pair has been passed.
    pub fn next(&mut self) -> (r: Option<(&'a K, &'a V)>)
        requires
            old(self).valid(),
        ensures
            final(self).valid(),
            final(self).pairs() == old(self).pairs(),
            0 <= old(self).pos() <= old(self).pairs().len(),
            old(self).pos() < old(self).pairs().len() ==> final(self).pos() == old(self).pos() + 1 && r
                == Some(
                (&old(self).pairs()[old(self).pos()].0, &old(self).pairs()[old(self).pos()].1),
            ),
            old(self).pos() == old(self).pairs().len() ==> final(self).pos() == old(self).pos() && r
                is None,
    {
        let ghost bs = self.map.buckets@;
        let ghost start = self.pos();
        proof {
            if self.bucket < bs.len() {
                lemma_flat_step(bs, self.bucket as int);
                lemma_flat_prefix(bs, self.bucket as int + 1);
            } else {
                assert(bs.take(bs.len() as int) =~= bs);
            }
        }
        loop
            invariant
                self.valid(),
                start == old(self).pos(),
                self.map.buckets@ == bs,
                self.pairs() == old(self).pairs(),
                self.pos() == start,
                0 <= start <= chains_flat(bs).len(),
            decreases bs.len() - self.bucket, bs.len() + 1 - self.at,
        {
            if self.bucket >= self.map.buckets.len() {
                proof {
                    assert(bs.take(bs.len() as int) =~= bs);
                }
                return None;
            }
            let b = self.bucket;
            if self.at < self.map.buckets[b].len() {
                let at = self.at;
                let p = &self.map.buckets[b][at];
                proof {
                    lemma_flat_index(bs, b as int, at as int);
                }
                self.at = at + 1;
                return Some((&p.0, &p.1));
            }
            proof {
                lemma_flat_step(bs, b as int);
                lemma_flat_prefix(bs, b as int + 1);
            }
            self.bucket = b + 1;
            self.at = 0;
        }
    }
}

} // verus!
