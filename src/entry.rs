//! The entry interface: the slot of one key, found once and then filled or
//! read without a second lookup. A slot is a position in the bucket array
//! (a bucket and an offset), resolved against the table when it is used.
//! The fields are public so that contracts can speak of the borrowed table
//! and of what it becomes once the returned reference is released.
use crate::key::HashKey;
use crate::table::HashMap;
use vstd::prelude::*;

verus! {

/// A slot that holds a pair: the pair at offset `at` of bucket `bucket`.
pub struct OccupiedEntry<'a, K, V> {
    /// The table, borrowed for as long as the entry lives.
    pub map: &'a mut HashMap<K, V>,
    /// The bucket that holds the pair.
    pub bucket: usize,
    /// The pair's offset within its bucket.
    pub at: usize,
}

/// A slot with no pair for `key`: the bucket where the key belongs.
pub struct VacantEntry<'a, K, V> {
    /// The key to store.
    pub key: K,
    /// The table, borrowed for as long as the entry lives.
    pub map: &'a mut HashMap<K, V>,
    /// The bucket where the key belongs under the current bucket count.
    pub bucket: usize,
}

/// The slot of one key, occupied or not.
pub enum Entry<'a, K, V> {
    Occupied(OccupiedEntry<'a, K, V>),
    Vacant(VacantEntry<'a, K, V>),
}

impl<'a, K: HashKey, V> OccupiedEntry<'a, K, V> {
    /// The entry designates a pair of a well-formed table.
    pub open spec fn valid(&self) -> bool {
        &&& self.map.wf()
        &&& self.map.has_slot(self.bucket as int, self.at as int)
    }

    /// The key bytes of the designated pair.
    pub open spec fn key_bytes(&self) -> Seq<u8> {
        self.map.key_at(self.bucket as int, self.at as int)
    }

    /// A mutable reference to the stored value, for as long as the table
    /// was borrowed.
    pub fn into_mut(self) -> (r: &'a mut V)
        requires
            self.valid(),
        ensures
            old(self.map)@.contains_key(self.key_bytes()),
            *r == old(self.map)@[self.key_bytes()],
            final(self.map).wf(),
            final(self.map)@ == old(self.map)@.insert(self.key_bytes(), *final(r)),
            final(self.map).bucket_count() == old(self.map).bucket_count(),
    {
        let ghost k = self.key_bytes();
        self.map.value_at_mut(self.bucket, self.at, Ghost(k))
    }
}

impl<'a, K: HashKey, V> VacantEntry<'a, K, V> {
    /// The entry designates the bucket of a key absent from a well-formed
    /// table with room for one more pair.
    pub open spec fn valid(&self) -> bool {
        &&& self.map.wf()
        &&& self.map.free_for(self.bucket as int, self.key.key_bytes())
        &&& self.map@.len() < usize::MAX
    }

    /// Stores `value` under the entry's key and returns a mutable reference
    /// to it.
    pub fn insert(self, value: V) -> (r: &'a mut V)
        requires
            self.valid(),
        ensures
            *r == value,
            final(self.map).wf(),
            final(self.map)@ == old(self.map)@.insert(self.key.key_bytes(), *final(r)),
            final(self.map).bucket_count() == old(self.map).bucket_count(),
    {
        let ghost k = self.key.key_bytes();
        let map = self.map;
        let b = self.bucket;
        let at = map.chain_len(b);
        map.push_pair(b, self.key, value);
        map.value_at_mut(b, at, Ghost(k))
    }
}

impl<'a, K: HashKey, V> Entry<'a, K, V> {
    /// The entry came from a well-formed table and still describes it.
    pub open spec fn valid(&self) -> bool {
        match self {
            Entry::Occupied(o) => o.valid(),
            Entry::Vacant(v) => v.valid(),
        }
    }

    /// A mutable reference to the value under the entry's key, storing
    /// `value` there first when the slot is vacant.
    pub fn or_insert(self, value: V) -> (r: &'a mut V)
        requires
            self.valid(),
        ensures
            match self {
                Entry::Occupied(o) => {
                    &&& *r == o.map@[o.key_bytes()]
                    &&& final(o.map).wf()
                    &&& final(o.map)@ == o.map@.insert(o.key_bytes(), *final(r))
                    &&& final(o.map).bucket_count() == o.map.bucket_count()
                },
                Entry::Vacant(v) => {
                    &&& *r == value
                    &&& final(v.map).wf()
                    &&& final(v.map)@ == v.map@.insert(v.key.key_bytes(), *final(r))
                    &&& final(v.map).bucket_count() == v.map.bucket_count()
                },
            },
    {
        match self {
            Entry::Occupied(o) => o.into_mut(),
            Entry::Vacant(v) => v.insert(value),
        }
    }

    /// Like [`Entry::or_insert`], with the value made by `maker`, which is
    /// called only when the slot is vacant.
    pub fn or_insert_with<F: FnOnce() -> V>(self, maker: F) -> (r: &'a mut V)
        requires
            self.valid(),
            self is Vacant ==> maker.requires(()),
        ensures
            match self {
                Entry::Occupied(o) => {
                    &&& *r == o.map@[o.key_bytes()]
                    &&& final(o.map).wf()
                    &&& final(o.map)@ == o.map@.insert(o.key_bytes(), *final(r))
                    &&& final(o.map).bucket_count() == o.map.bucket_count()
                },
                Entry::Vacant(v) => {
                    &&& maker.ensures((), *r)
                    &&& final(v.map).wf()
                    &&& final(v.map)@ == v.map@.insert(v.key.key_bytes(), *final(r))
                    &&& final(v.map).bucket_count() == v.map.bucket_count()
                },
            },
    {
        match self {
            Entry::Occupied(o) => o.into_mut(),
            Entry::Vacant(v) => v.insert(maker()),
        }
    }

    /// Like [`Entry::or_insert`], with the default value of `V`.
    pub fn or_insert_default(self) -> (r: &'a mut V)
        where
            V: Default,
        requires
            self.valid(),
        ensures
            match self {
                Entry::Occupied(o) => {
                    &&& *r == o.map@[o.key_bytes()]
                    &&& final(o.map).wf()
                    &&& final(o.map)@ == o.map@.insert(o.key_bytes(), *final(r))
                    &&& final(o.map).bucket_count() == o.map.bucket_count()
                },
                Entry::Vacant(v) => {
                    &&& call_ensures(V::default, (), *r)
                    &&& final(v.map).wf()
                    &&& final(v.map)@ == v.map@.insert(v.key.key_bytes(), *final(r))
                    &&& final(v.map).bucket_count() == v.map.bucket_count()
                },
            },
    {
        match self {
            Entry::Occupied(o) => o.into_mut(),
            Entry::Vacant(v) => v.insert(V::default()),
        }
    }
}

} // verus!
