//! The most frequent key of a changing multiset, with ties going to the
//! smallest key.

use crate::counts::{buckets_of, count_in, counts_of, keys_of, BucketMap, CountMap, KeySet};
use vstd::prelude::*;

verus! {

/// The buckets `b` sort the keys of `f` by their counts: a key sits in the
/// bucket of its count and nowhere else, and no bucket is empty.
spec fn buckets_match(f: Map<i64, usize>, b: Map<usize, Set<i64>>) -> bool {
    &&& forall|v: i64|
        #[trigger] f.contains_key(v) ==> f[v] >= 1 && b.contains_key(f[v]) && b[f[v]].contains(v)
    &&& forall|c: usize, v: i64|
        b.contains_key(c) && #[trigger] b[c].contains(v) ==> f.contains_key(v) && f[v] == c
    &&& forall|c: usize| #[trigger] b.contains_key(c) ==> c >= 1 && exists|v: i64| b[c].contains(v)
}

/// `top` is the largest count of `b` and `m` the smallest key with that
/// count; for an empty `b` both are absent.
spec fn leads(b: Map<usize, Set<i64>>, top: usize, m: Option<i64>) -> bool {
    if top == 0 {
        m.is_none() && forall|c: usize| !b.contains_key(c)
    } else {
        &&& b.contains_key(top)
        &&& forall|c: usize| #[trigger] b.contains_key(c) ==> c <= top
        &&& m.is_some()
        &&& b[top].contains(m.unwrap())
        &&& forall|v: i64| #[trigger] b[top].contains(v) ==> m.unwrap() <= v
    }
}

/// `b2` is `b` after the key `v` moved from the bucket of `from` to the
/// bucket of `to` (a count of zero has no bucket).
spec fn moved(
    b: Map<usize, Set<i64>>,
    b2: Map<usize, Set<i64>>,
    v: i64,
    from: usize,
    to: usize,
) -> bool {
    &&& forall|c: usize|
        c != from && c != to ==> (#[trigger] b2.contains_key(c) == b.contains_key(c)) && (
        b.contains_key(c) ==> b2[c] == b[c])
    &&& from > 0 ==> (b2.contains_key(from) ==> b.contains_key(from) && b2[from]
        == b[from].remove(v))
    &&& to > 0 ==> b2.contains_key(to) && b2[to] == (if b.contains_key(to) {
        b[to]
    } else {
        Set::empty()
    }).insert(v)
}

/// Tracks the mode of a multiset of keys under insertions and removals.
pub struct RollingMode {
    freq: CountMap,
    freq_bucket: BucketMap,
    mode: Option<i64>,
    mode_freq: usize,
}

impl RollingMode {
    /// How often `v` is currently held.
    pub closed spec fn frequency(&self, v: i64) -> nat {
        count_in(counts_of(self.freq), v)
    }

    /// The largest frequency of any key, zero when nothing is held.
    pub closed spec fn top_frequency(&self) -> nat {
        self.mode_freq as nat
    }

    /// The set of keys that are held at least once.
    pub closed spec fn keys(&self) -> Set<i64> {
        counts_of(self.freq).dom()
    }

    /// Representation invariant.
    pub closed spec fn wf(&self) -> bool {
        &&& counts_of(self.freq).dom().finite()
        &&& buckets_match(counts_of(self.freq), buckets_of(self.freq_bucket))
        &&& leads(buckets_of(self.freq_bucket), self.mode_freq, self.mode)
    }

    /// What the invariant says of the frequencies: the top frequency is the
    /// largest one, and it is reached exactly when something is held.
    pub proof fn lemma_top(&self)
        requires
            self.wf(),
        ensures
            self.keys().finite(),
            forall|v: i64| self.keys().contains(v) <==> self.frequency(v) >= 1,
            forall|v: i64| self.frequency(v) <= self.top_frequency(),
            self.top_frequency() == 0 <==> forall|v: i64| self.frequency(v) == 0,
            self.top_frequency() > 0 ==> exists|v: i64| self.frequency(v) == self.top_frequency(),
    {
        let f = counts_of(self.freq);
        let b = buckets_of(self.freq_bucket);
        assert forall|v: i64| self.frequency(v) <= self.top_frequency() by {
            if f.contains_key(v) {
                assert(b.contains_key(f[v]));
            }
        }
        if self.mode_freq > 0 {
            let m = self.mode.unwrap();
            assert(b[self.mode_freq].contains(m));
            assert(self.frequency(m) == self.top_frequency());
        } else {
            assert forall|v: i64| self.frequency(v) == 0 by {
                if f.contains_key(v) {
                    assert(b.contains_key(f[v]));
                }
            }
        }
    }

    /// Creates an empty tracker.
    pub fn new() -> (r: Self)
        ensures
            r.wf(),
            forall|v: i64| r.frequency(v) == 0,
    {
        let r = RollingMode {
            freq: CountMap::new(),
            freq_bucket: BucketMap::new(),
            mode: None,
            mode_freq: 0,
        };
        assert(counts_of(r.freq).dom() =~= Set::<i64>::empty());
        r
    }

    /// Moves `value` from the bucket of `old_freq` to the bucket of
    /// `new_freq`.
    fn update_freq_buckets(
        &mut self,
        value: i64,
        old_freq: usize,
        new_freq: usize,
        Ghost(before): Ghost<Map<i64, usize>>,
    )
        requires
            buckets_match(before, buckets_of(old(self).freq_bucket)),
            old_freq == count_in(before, value),
            old_freq != new_freq,
            counts_of(old(self).freq) == if new_freq == 0 {
                before.remove(value)
            } else {
                before.insert(value, new_freq)
            },
        ensures
            final(self).freq == old(self).freq,
            final(self).mode == old(self).mode,
            final(self).mode_freq == old(self).mode_freq,
            buckets_match(counts_of(final(self).freq), buckets_of(final(self).freq_bucket)),
            moved(
                buckets_of(old(self).freq_bucket),
                buckets_of(final(self).freq_bucket),
                value,
                old_freq,
                new_freq,
            ),
            old_freq > 0 && !buckets_of(final(self).freq_bucket).contains_key(old_freq)
                ==> forall|v: i64|
                #[trigger] buckets_of(old(self).freq_bucket)[old_freq].contains(v) ==> v == value,
    {
        let ghost b0 = buckets_of(self.freq_bucket);
        if old_freq > 0 {
            match self.freq_bucket.take(old_freq) {
                Some(bucket) => {
                    let mut bucket = bucket;
                    bucket.remove(value);
                    if !bucket.is_empty() {
                        proof {
                            assert(!(keys_of(bucket) =~= Set::<i64>::empty()));
                        }
                        self.freq_bucket.put(old_freq, bucket);
                    } else {
                        proof {
                            assert forall|v: i64| #[trigger] b0[old_freq].contains(v) implies v
                                == value by {
                                if v != value {
                                    assert(keys_of(bucket).contains(v));
                                }
                            }
                        }
                    }
                },
                None => {},
            }
        }
        let ghost b1 = buckets_of(self.freq_bucket);
        if new_freq > 0 {
            let mut bucket = match self.freq_bucket.take(new_freq) {
                Some(b) => b,
                None => KeySet::new(),
            };
            proof {
                if !b1.contains_key(new_freq) {
                    assert(keys_of(bucket) =~= Set::<i64>::empty());
                }
            }
            bucket.insert(value);
            self.freq_bucket.put(new_freq, bucket);
        }
        proof {
            let b2 = buckets_of(self.freq_bucket);
            let f2 = counts_of(self.freq);
            assert(b0.contains_key(old_freq) || old_freq == 0) by {
                if old_freq > 0 {
                    assert(before.contains_key(value));
                }
            }
            assert(moved(b0, b2, value, old_freq, new_freq));
            assert forall|v: i64| #[trigger] f2.contains_key(v) implies f2[v] >= 1
                && b2.contains_key(f2[v]) && b2[f2[v]].contains(v) by {
                if v != value {
                    assert(before.contains_key(v));
                    assert(b0[before[v]].contains(v));
                    if before[v] == old_freq {
                        assert(b1.contains_key(old_freq));
                    }
                }
            }
            assert forall|c: usize, v: i64|
                b2.contains_key(c) && #[trigger] b2[c].contains(v) implies f2.contains_key(v)
                && f2[v] == c by {
                if c == new_freq {
                    if v != value {
                        assert(b0[c].contains(v));
                    }
                } else {
                    assert(b0[c].contains(v));
                }
            }
            assert forall|c: usize| #[trigger] b2.contains_key(c) implies c >= 1 && exists|v: i64|
                b2[c].contains(v) by {
                if c == new_freq {
                    assert(b2[c].contains(value));
                } else if c == old_freq {
                    assert(!(b2[c] =~= Set::<i64>::empty()));
                    let w = choose|w: i64| b2[c].contains(w);
                    assert(b2[c].contains(w));
                } else {
                    let w = choose|w: i64| b0[c].contains(w);
                    assert(b2[c].contains(w));
                }
            }
        }
    }

    /// Adds one occurrence of `value`.
    pub fn push(&mut self, value: i64)
        requires
            old(self).wf(),
            old(self).frequency(value) < usize::MAX,
        ensures
            final(self).wf(),
            forall|v: i64|
                final(self).frequency(v) == old(self).frequency(v) + if v == value {
                    1nat
                } else {
                    0nat
                },
    {
        let ghost f0 = counts_of(self.freq);
        let ghost b0 = buckets_of(self.freq_bucket);
        let old_freq = match self.freq.get(value) {
            Some(c) => c,
            None => 0,
        };
        let new_freq = old_freq + 1;
        self.freq.insert(value, new_freq);
        self.update_freq_buckets(value, old_freq, new_freq, Ghost(f0));
        proof {
            if old_freq > 0 {
                assert(b0.contains_key(old_freq));
            }
        }
        if new_freq > self.mode_freq {
            self.mode = Some(value);
            self.mode_freq = new_freq;
            proof {
                let b2 = buckets_of(self.freq_bucket);
                assert(!b0.contains_key(new_freq));
                assert forall|c: usize| #[trigger] b2.contains_key(c) implies c <= new_freq by {
                    if c != old_freq && c != new_freq {
                        assert(b0.contains_key(c));
                    }
                }
            }
        } else if new_freq == self.mode_freq {
            let smaller = match self.mode {
                Some(m) => value < m,
                None => true,
            };
            if smaller {
                self.mode = Some(value);
            }
            proof {
                let b2 = buckets_of(self.freq_bucket);
                assert forall|c: usize| #[trigger] b2.contains_key(c) implies c
                    <= self.mode_freq by {
                    if c != old_freq && c != new_freq {
                        assert(b0.contains_key(c));
                    }
                }
            }
        } else {
            proof {
                let b2 = buckets_of(self.freq_bucket);
                assert(b2.contains_key(self.mode_freq) == b0.contains_key(self.mode_freq));
                assert forall|c: usize| #[trigger] b2.contains_key(c) implies c
                    <= self.mode_freq by {
                    if c != old_freq && c != new_freq {
                        assert(b0.contains_key(c));
                    }
                }
            }
        }
        proof {
            assert(counts_of(self.freq).dom() =~= f0.dom().insert(value));
        }
    }

    /// Removes one occurrence of `value`, if there is one.
    pub fn pop(&mut self, value: i64)
        requires
            old(self).wf(),
        ensures
            final(self).wf(),
            forall|v: i64|
                final(self).frequency(v) == if v == value && old(self).frequency(v) > 0 {
                    (old(self).frequency(v) - 1) as nat
                } else {
                    old(self).frequency(v)
                },
    {
        let ghost f0 = counts_of(self.freq);
        let ghost b0 = buckets_of(self.freq_bucket);
        match self.freq.get(value) {
            Some(old_freq) => {
                proof {
                    assert(f0.contains_key(value));
                    assert(b0.contains_key(old_freq));
                }
                let new_freq = old_freq - 1;
                if new_freq == 0 {
                    self.freq.remove(value);
                } else {
                    self.freq.insert(value, new_freq);
                }
                self.update_freq_buckets(value, old_freq, new_freq, Ghost(f0));
                proof {
                    assert(counts_of(self.freq).dom() =~= if new_freq == 0 {
                        f0.dom().remove(value)
                    } else {
                        f0.dom()
                    });
                }
                let is_mode = match self.mode {
                    Some(m) => m == value,
                    None => false,
                };
                let should_recalculate = is_mode || old_freq == self.mode_freq;
                if should_recalculate {
                    self.recalculate_mode();
                } else {
                    proof {
                        let b2 = buckets_of(self.freq_bucket);
                        assert(b2.contains_key(self.mode_freq) == b0.contains_key(self.mode_freq));
                        assert forall|c: usize| #[trigger] b2.contains_key(c) implies c
                            <= self.mode_freq by {
                            if c != old_freq && c != new_freq {
                                assert(b0.contains_key(c));
                            }
                        }
                    }
                }
            },
            None => {},
        }
    }

    /// The smallest of the most frequent keys, if anything is held.
    pub fn mode(&self) -> (r: Option<i64>)
        requires
            self.wf(),
        ensures
            r.is_none() <==> forall|v: i64| self.frequency(v) == 0,
            r.is_some() ==> self.frequency(r.unwrap()) >= 1 && forall|v: i64|
                self.frequency(v) <= self.frequency(r.unwrap()) && (#[trigger] self.frequency(v)
                    == self.frequency(r.unwrap()) ==> r.unwrap() <= v),
    {
        proof {
            self.lemma_top();
            let f = counts_of(self.freq);
            let b = buckets_of(self.freq_bucket);
            if self.mode_freq > 0 {
                let m = self.mode.unwrap();
                assert(b[self.mode_freq].contains(m));
                assert forall|v: i64|
                    self.frequency(v) <= self.frequency(m) && (#[trigger] self.frequency(v)
                        == self.frequency(m) ==> m <= v) by {
                    if f.contains_key(v) {
                        assert(b.contains_key(f[v]));
                        assert(b[f[v]].contains(v));
                    }
                }
            }
        }
        self.mode
    }

    /// All keys of the largest frequency, in no particular order.
    pub fn modes(&self) -> (r: Vec<i64>)
        requires
            self.wf(),
        ensures
            r@.no_duplicates(),
            forall|v: i64|
                r@.contains(v) <==> self.frequency(v) >= 1 && self.frequency(v)
                    == self.top_frequency(),
    {
        let ghost f = counts_of(self.freq);
        let ghost b = buckets_of(self.freq_bucket);
        if self.mode_freq == 0 {
            let r: Vec<i64> = Vec::new();
            proof {
                self.lemma_top();
            }
            return r;
        }
        match self.freq_bucket.get(self.mode_freq) {
            Some(values) => {
                let r = values.items();
                proof {
                    assert forall|v: i64|
                        r@.contains(v) <==> self.frequency(v) >= 1 && self.frequency(v)
                            == self.top_frequency() by {
                        assert(r@.contains(v) == r@.to_set().contains(v));
                        if f.contains_key(v) {
                            assert(b.contains_key(f[v]));
                            assert(b[f[v]].contains(v));
                        }
                    }
                }
                r
            },
            None => Vec::new(),
        }
    }

    /// Forgets every key.
    pub fn reset(&mut self)
        requires
            old(self).wf(),
        ensures
            final(self).wf(),
            forall|v: i64| final(self).frequency(v) == 0,
    {
        self.freq.clear();
        self.freq_bucket.clear();
        self.mode = None;
        self.mode_freq = 0;
        proof {
            assert(counts_of(self.freq).dom() =~= Set::<i64>::empty());
        }
    }

    /// Recomputes the top frequency and the mode from the buckets.
    fn recalculate_mode(&mut self)
        requires
            counts_of(old(self).freq).dom().finite(),
            buckets_match(counts_of(old(self).freq), buckets_of(old(self).freq_bucket)),
        ensures
            final(self).wf(),
            final(self).freq == old(self).freq,
            final(self).freq_bucket == old(self).freq_bucket,
    {
        let ghost f = counts_of(self.freq);
        let ghost b = buckets_of(self.freq_bucket);
        if self.freq.len() == 0 {
            self.mode = None;
            self.mode_freq = 0;
            proof {
                f.dom().lemma_len0_is_empty();
                assert forall|c: usize| !b.contains_key(c) by {
                    if b.contains_key(c) {
                        let w = choose|w: i64| b[c].contains(w);
                        assert(f.contains_key(w));
                    }
                }
            }
            return ;
        }
        let keys = self.freq_bucket.keys();
        let mut top: usize = 0;
        let mut i: usize = 0;
        while i < keys.len()
            invariant
                i <= keys.len(),
                keys@.to_set() == b.dom(),
                forall|j: int| 0 <= j < i ==> keys@[j] <= top,
                top == 0 || keys@.contains(top),
            decreases keys.len() - i,
        {
            if keys[i] > top {
                top = keys[i];
            }
            i += 1;
        }
        self.mode_freq = top;
        proof {
            assert forall|c: usize| #[trigger] b.contains_key(c) implies c <= top by {
                assert(keys@.to_set().contains(c));
                assert(keys@.contains(c));
            }
            if top > 0 {
                assert(keys@.to_set().contains(top));
            }
            // something is held, so some bucket exists
            assert(f.dom().len() > 0);
            let w = f.dom().choose();
            assert(f.dom().contains(w)) by {
                if f.dom() =~= Set::<i64>::empty() {
                }
            }
            assert(b.contains_key(f[w]));
            assert(top >= 1);
        }
        match self.freq_bucket.get(top) {
            Some(values) => {
                let items = values.items();
                proof {
                    let w = choose|w: i64| b[top].contains(w);
                    assert(items@.to_set().contains(w));
                    assert(items@.contains(w));
                }
                let mut least = items[0];
                let mut k: usize = 1;
                while k < items.len()
                    invariant
                        1 <= k <= items.len(),
                        forall|j: int| 0 <= j < k ==> least <= items@[j],
                        items@.contains(least),
                    decreases items.len() - k,
                {
                    if items[k] < least {
                        least = items[k];
                    }
                    k += 1;
                }
                self.mode = Some(least);
                proof {
                    assert(items@.to_set().contains(least));
                    assert forall|v: i64| #[trigger] b[top].contains(v) implies least <= v by {
                        assert(items@.to_set().contains(v));
                        assert(items@.contains(v));
                    }
                }
            },
            None => {
                self.mode = None;
            },
        }
    }

    /// The largest frequency of any key.
    pub fn max_frequency(&self) -> (r: usize)
        ensures
            r == self.top_frequency(),
    {
        self.mode_freq
    }

    /// How often `value` is held.
    pub fn frequency_of(&self, value: i64) -> (r: usize)
        ensures
            r == self.frequency(value),
    {
        match self.freq.get(value) {
            Some(c) => c,
            None => 0,
        }
    }

    /// Number of distinct keys held.
    pub fn unique_count(&self) -> (r: usize)
        ensures
            r == self.keys().len(),
    {
        self.freq.len()
    }

    /// Whether nothing is held.
    pub fn is_empty(&self) -> (r: bool)
        requires
            self.wf(),
        ensures
            r <==> forall|v: i64| self.frequency(v) == 0,
    {
        proof {
            self.lemma_top();
            let f = counts_of(self.freq);
            if f.dom().len() == 0 {
                f.dom().lemma_len0_is_empty();
                assert forall|v: i64| self.frequency(v) == 0 by {
                    assert(!f.dom().contains(v));
                }
            } else {
                let w = f.dom().choose();
                if forall|v: i64| self.frequency(v) == 0 {
                    assert(f.dom() =~= Set::<i64>::empty()) by {
                        assert forall|v: i64| !f.dom().contains(v) by {
                            assert(self.frequency(v) == 0);
                            if f.contains_key(v) {
                                assert(f[v] >= 1);
                            }
                        }
                    }
                }
            }
        }
        self.freq.len() == 0
    }
}

} // verus!
