//! Hash collections keyed by integers, used for frequency bookkeeping.
//!
//! The collections are `hashbrown` tables hashed with `ahash`. Verus does
//! not look inside them: what each one holds is named by a specification
//! function, and every operation states its effect on that content.

use vstd::prelude::*;

verus! {

/// A hash map from keys to counts.
#[verifier::external_body]
pub struct CountMap {
    inner: hashbrown::HashMap<i64, usize, ahash::RandomState>,
}

/// A hash set of keys.
#[verifier::external_body]
pub struct KeySet {
    inner: hashbrown::HashSet<i64, ahash::RandomState>,
}

/// A hash map from counts to sets of keys.
#[verifier::external_body]
pub struct BucketMap {
    inner: hashbrown::HashMap<usize, KeySet, ahash::RandomState>,
}

/// The key-to-count pairs that a `CountMap` holds.
pub uninterp spec fn counts_of(m: CountMap) -> Map<i64, usize>;

/// The keys that a `KeySet` holds.
pub uninterp spec fn keys_of(s: KeySet) -> Set<i64>;

/// The count-to-keys pairs that a `BucketMap` holds.
pub uninterp spec fn buckets_of(m: BucketMap) -> Map<usize, Set<i64>>;

/// How often `v` occurs according to the count map `f`.
pub open spec fn count_in(f: Map<i64, usize>, v: i64) -> nat {
    if f.contains_key(v) {
        f[v] as nat
    } else {
        0
    }
}

impl CountMap {
    /// `hashbrown::HashMap::with_hasher` with a default `ahash::RandomState`:
    /// the new map holds nothing.
    #[verifier::external_body]
    pub(crate) fn new() -> (r: Self)
        ensures
            forall|k: i64| !counts_of(r).contains_key(k),
    {
        CountMap { inner: hashbrown::HashMap::with_hasher(ahash::RandomState::default()) }
    }

    /// `hashbrown::HashMap::with_capacity_and_hasher` with a default
    /// `ahash::RandomState`: the new map holds nothing and has room for
    /// `capacity` keys. The call stops the program where the table would
    /// take more than `isize::MAX` bytes; the bound on `capacity` keeps a
    /// table of sixteen-byte entries well below that.
    #[verifier::external_body]
    pub(crate) fn with_capacity(capacity: usize) -> (r: Self)
        requires
            capacity <= usize::MAX / 128,
        ensures
            forall|k: i64| !counts_of(r).contains_key(k),
    {
        CountMap {
            inner: hashbrown::HashMap::with_capacity_and_hasher(
                capacity,
                ahash::RandomState::default(),
            ),
        }
    }

    /// `hashbrown::HashMap::get`: the count stored for `key`, if any.
    #[verifier::external_body]
    pub(crate) fn get(&self, key: i64) -> (r: Option<usize>)
        ensures
            r == if counts_of(*self).contains_key(key) {
                Some(counts_of(*self)[key])
            } else {
                None
            },
    {
        self.inner.get(&key).copied()
    }

    /// `hashbrown::HashMap::insert`: afterwards `key` maps to `count`, and
    /// nothing else changed.
    #[verifier::external_body]
    pub(crate) fn insert(&mut self, key: i64, count: usize)
        ensures
            counts_of(*final(self)) == counts_of(*old(self)).insert(key, count),
    {
        self.inner.insert(key, count);
    }

    /// `hashbrown::HashMap::remove`: afterwards `key` is absent, and nothing
    /// else changed.
    #[verifier::external_body]
    pub(crate) fn remove(&mut self, key: i64)
        ensures
            counts_of(*final(self)) == counts_of(*old(self)).remove(key),
    {
        self.inner.remove(&key);
    }

    /// `hashbrown::HashMap::len`: the number of keys.
    #[verifier::external_body]
    pub(crate) fn len(&self) -> (r: usize)
        ensures
            r == counts_of(*self).dom().len(),
    {
        self.inner.len()
    }

    /// `hashbrown::HashMap::clear`: afterwards the map holds nothing.
    #[verifier::external_body]
    pub(crate) fn clear(&mut self)
        ensures
            forall|k: i64| !counts_of(*final(self)).contains_key(k),
    {
        self.inner.clear();
    }

    /// `hashbrown::HashMap::shrink_to_fit`: gives spare memory back; the
    /// content stays.
    #[verifier::external_body]
    pub(crate) fn shrink_to_fit(&mut self)
        ensures
            counts_of(*final(self)) == counts_of(*old(self)),
    {
        self.inner.shrink_to_fit();
    }
}

impl KeySet {
    /// `hashbrown::HashSet::with_hasher` with a default `ahash::RandomState`:
    /// the new set holds nothing.
    #[verifier::external_body]
    pub(crate) fn new() -> (r: Self)
        ensures
            forall|k: i64| !keys_of(r).contains(k),
    {
        KeySet { inner: hashbrown::HashSet::with_hasher(ahash::RandomState::default()) }
    }

    /// `hashbrown::HashSet::insert`: afterwards the set holds `key` too.
    #[verifier::external_body]
    pub(crate) fn insert(&mut self, key: i64)
        ensures
            keys_of(*final(self)) == keys_of(*old(self)).insert(key),
    {
        self.inner.insert(key);
    }

    /// `hashbrown::HashSet::remove`: afterwards the set does not hold `key`.
    #[verifier::external_body]
    pub(crate) fn remove(&mut self, key: i64)
        ensures
            keys_of(*final(self)) == keys_of(*old(self)).remove(key),
    {
        self.inner.remove(&key);
    }

    /// `hashbrown::HashSet::is_empty`: whether the set holds no key.
    #[verifier::external_body]
    pub(crate) fn is_empty(&self) -> (r: bool)
        ensures
            r == (forall|k: i64| !keys_of(*self).contains(k)),
    {
        self.inner.is_empty()
    }

    /// `hashbrown::HashSet::iter`, collected: every key of the set once, in
    /// no particular order.
    #[verifier::external_body]
    pub(crate) fn items(&self) -> (r: Vec<i64>)
        ensures
            r@.no_duplicates(),
            r@.to_set() == keys_of(*self),
    {
        self.inner.iter().copied().collect()
    }
}

impl BucketMap {
    /// `hashbrown::HashMap::with_hasher` with a default `ahash::RandomState`:
    /// the new map holds nothing.
    #[verifier::external_body]
    pub(crate) fn new() -> (r: Self)
        ensures
            forall|c: usize| !buckets_of(r).contains_key(c),
    {
        BucketMap { inner: hashbrown::HashMap::with_hasher(ahash::RandomState::default()) }
    }

    /// `hashbrown::HashMap::get`: the set stored for `count`, if any.
    #[verifier::external_body]
    pub(crate) fn get(&self, count: usize) -> (r: Option<&KeySet>)
        ensures
            r.is_some() == buckets_of(*self).contains_key(count),
            r.is_some() ==> keys_of(*r.unwrap()) == buckets_of(*self)[count],
    {
        self.inner.get(&count)
    }

    /// `hashbrown::HashMap::remove`: takes the set stored for `count` out of
    /// the map and hands it over, if there is one.
    #[verifier::external_body]
    pub(crate) fn take(&mut self, count: usize) -> (r: Option<KeySet>)
        ensures
            buckets_of(*final(self)) == buckets_of(*old(self)).remove(count),
            r.is_some() == buckets_of(*old(self)).contains_key(count),
            r.is_some() ==> keys_of(r.unwrap()) == buckets_of(*old(self))[count],
    {
        self.inner.remove(&count)
    }

    /// `hashbrown::HashMap::insert`: afterwards `count` maps to the keys of
    /// `set`, and nothing else changed.
    #[verifier::external_body]
    pub(crate) fn put(&mut self, count: usize, set: KeySet)
        ensures
            buckets_of(*final(self)) == buckets_of(*old(self)).insert(count, keys_of(set)),
    {
        self.inner.insert(count, set);
    }

    /// `hashbrown::HashMap::keys`, collected: every count of the map once,
    /// in no particular order.
    #[verifier::external_body]
    pub(crate) fn keys(&self) -> (r: Vec<usize>)
        ensures
            r@.no_duplicates(),
            r@.to_set() == buckets_of(*self).dom(),
    {
        self.inner.keys().copied().collect()
    }

    /// `hashbrown::HashMap::clear`: afterwards the map holds nothing.
    #[verifier::external_body]
    pub(crate) fn clear(&mut self)
        ensures
            forall|c: usize| !buckets_of(*final(self)).contains_key(c),
    {
        self.inner.clear();
    }
}

} // verus!
