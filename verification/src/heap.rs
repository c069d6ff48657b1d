//! A binary heap of integer keys over a vector.

use vstd::prelude::*;

verus! {

/// `a` may sit above `b` in a heap: at least `b` when the largest key comes
/// first, at most `b` when the smallest does.
pub open spec fn ahead(largest_first: bool, a: i64, b: i64) -> bool {
    if largest_first {
        a >= b
    } else {
        a <= b
    }
}

/// Every element but the root may sit below its parent.
pub open spec fn heap_ordered(s: Seq<i64>, largest_first: bool) -> bool {
    forall|i: int| 0 < i < s.len() ==> ahead(largest_first, #[trigger] s[(i - 1) / 2], s[i])
}

/// In an ordered heap the root may sit above every element.
pub proof fn lemma_root_ahead(s: Seq<i64>, largest_first: bool, i: int)
    requires
        heap_ordered(s, largest_first),
        0 <= i < s.len(),
    ensures
        ahead(largest_first, s[0], s[i]),
    decreases i,
{
    if i > 0 {
        lemma_root_ahead(s, largest_first, (i - 1) / 2);
        assert(ahead(largest_first, s[(i - 1) / 2], s[i]));
    }
}

/// A binary heap. With `largest_first` the top is the largest key,
/// otherwise the smallest.
#[derive(Debug, Clone)]
pub struct Heap {
    data: Vec<i64>,
    largest_first: bool,
}

impl Heap {
    /// The keys in storage order; the top comes first.
    pub closed spec fn view(&self) -> Seq<i64> {
        self.data@
    }

    /// Whether the top is the largest key.
    pub closed spec fn descending(&self) -> bool {
        self.largest_first
    }

    /// Representation invariant: the storage is heap-ordered.
    pub open spec fn wf(&self) -> bool {
        heap_ordered(self@, self.descending())
    }

    /// The top of a well-formed heap may sit above every key.
    pub proof fn lemma_top(&self)
        requires
            self.wf(),
        ensures
            forall|i: int|
                0 <= i < self@.len() ==> ahead(self.descending(), self@[0], #[trigger] self@[i]),
    {
        assert forall|i: int| 0 <= i < self@.len() implies ahead(
            self.descending(),
            self@[0],
            #[trigger] self@[i],
        ) by {
            lemma_root_ahead(self.data@, self.largest_first, i);
        }
    }

    /// Creates an empty heap with room for `capacity` keys.
    pub fn new(capacity: usize, largest_first: bool) -> (r: Self)
        ensures
            r.wf(),
            r@ == Seq::<i64>::empty(),
            r.descending() == largest_first,
    {
        Heap { data: Vec::with_capacity(capacity), largest_first }
    }

    /// Number of keys.
    pub fn len(&self) -> (r: usize)
        ensures
            r == self@.len(),
    {
        self.data.len()
    }

    /// Whether the heap holds no key.
    pub fn is_empty(&self) -> (r: bool)
        ensures
            r == (self@.len() == 0),
    {
        self.data.len() == 0
    }

    /// The top key.
    pub fn peek(&self) -> (r: Option<i64>)
        ensures
            self@.len() == 0 ==> r.is_none(),
            self@.len() > 0 ==> r == Some(self@[0]),
    {
        if self.data.len() == 0 {
            None
        } else {
            Some(self.data[0])
        }
    }

    /// How often `value` occurs.
    pub fn count(&self, value: i64) -> (r: usize)
        ensures
            r == self@.to_multiset().count(value),
    {
        let mut found: usize = 0;
        let mut i: usize = 0;
        proof {
            broadcast use vstd::seq_lib::group_to_multiset_ensures;

            assert(self.data@.take(0) =~= Seq::<i64>::empty());
            assert(!Seq::<i64>::empty().contains(value));
        }
        while i < self.data.len()
            invariant
                i <= self.data@.len(),
                found <= i,
                found == self.data@.take(i as int).to_multiset().count(value),
            decreases self.data@.len() - i,
        {
            proof {
                broadcast use vstd::seq_lib::group_to_multiset_ensures;

                assert(self.data@.take(i + 1) =~= self.data@.take(i as int).push(
                    self.data@[i as int],
                ));
            }
            if self.data[i] == value {
                found += 1;
            }
            i += 1;
        }
        assert(self.data@.take(self.data@.len() as int) =~= self.data@);
        found
    }

    fn before(&self, a: i64, b: i64) -> (r: bool)
        ensures
            r == ahead(self.largest_first, a, b),
    {
        if self.largest_first {
            a >= b
        } else {
            a <= b
        }
    }

    fn swap(&mut self, i: usize, j: usize)
        requires
            i < old(self).data@.len(),
            j < old(self).data@.len(),
        ensures
            final(self).largest_first == old(self).largest_first,
            final(self).data@ == old(self).data@.update(i as int, old(self).data@[j as int]).update(
                j as int,
                old(self).data@[i as int],
            ),
            final(self).data@.to_multiset() == old(self).data@.to_multiset(),
    {
        let a = self.data[i];
        let b = self.data[j];
        self.data.set(i, b);
        self.data.set(j, a);
        proof {
            crate::order::lemma_swap_keeps_multiset(old(self).data@, i as int, j as int);
        }
    }

    /// Adds `value`.
    pub fn push(&mut self, value: i64)
        requires
            old(self).wf(),
        ensures
            final(self).wf(),
            final(self).descending() == old(self).descending(),
            final(self)@.to_multiset() == old(self)@.to_multiset().insert(value),
            final(self)@.len() == old(self)@.len() + 1,
    {
        self.data.push(value);
        proof {
            broadcast use vstd::seq_lib::group_to_multiset_ensures;

        }
        let ghost m = self.data@.to_multiset();
        let mut i: usize = self.data.len() - 1;
        loop
            invariant
                self.largest_first == old(self).largest_first,
                self.data@.len() == old(self).data@.len() + 1,
                self.data@.to_multiset() == m,
                i < self.data@.len(),
                forall|j: int|
                    0 < j < self.data@.len() && j != i ==> ahead(
                        self.largest_first,
                        #[trigger] self.data@[(j - 1) / 2],
                        self.data@[j],
                    ),
                forall|j: int|
                    0 < i && 0 < j < self.data@.len() && (j - 1) / 2 == i ==> ahead(
                        self.largest_first,
                        self.data@[(i - 1) / 2],
                        #[trigger] self.data@[j],
                    ),
            ensures
                heap_ordered(self.data@, self.largest_first),
            decreases i,
        {
            if i == 0 {
                break ;
            }
            let parent = (i - 1) / 2;
            if self.before(self.data[parent], self.data[i]) {
                break ;
            }
            let ghost prev = self.data@;
            self.swap(parent, i);
            proof {
                let cur = self.data@;
                assert forall|j: int| 0 < j < cur.len() && j != parent implies ahead(
                    self.largest_first,
                    #[trigger] cur[(j - 1) / 2],
                    cur[j],
                ) by {
                    if j == i {
                    } else if (j - 1) / 2 == i {
                        assert(ahead(self.largest_first, prev[(i - 1) / 2], prev[j]));
                    } else if (j - 1) / 2 == parent {
                        assert(ahead(self.largest_first, prev[(j - 1) / 2], prev[j]));
                    } else {
                        assert(ahead(self.largest_first, prev[(j - 1) / 2], prev[j]));
                    }
                }
                assert forall|j: int|
                    0 < parent && 0 < j < cur.len() && (j - 1) / 2 == parent implies ahead(
                    self.largest_first,
                    cur[(parent - 1) / 2],
                    #[trigger] cur[j],
                ) by {
                    assert(ahead(self.largest_first, prev[(parent - 1) / 2], prev[parent as int]));
                    if j != i {
                        assert(ahead(self.largest_first, prev[(j - 1) / 2], prev[j]));
                    }
                }
            }
            i = parent;
        }
    }

    /// Removes and returns the top key.
    pub fn pop(&mut self) -> (r: Option<i64>)
        requires
            old(self).wf(),
        ensures
            final(self).wf(),
            final(self).descending() == old(self).descending(),
            old(self)@.len() == 0 ==> r.is_none() && final(self)@ == old(self)@,
            old(self)@.len() > 0 ==> r == Some(old(self)@[0]) && final(self)@.to_multiset() == old(self)@.to_multiset().remove(old(self)@[0]) && final(self)@.len() == old(self)@.len() - 1,
    {
        let n = self.data.len();
        if n == 0 {
            return None;
        }
        let ghost s0 = self.data@;
        self.swap(0, n - 1);
        let top = match self.data.pop() {
            Some(t) => t,
            None => 0,
        };
        proof {
            broadcast use vstd::seq_lib::group_to_multiset_ensures;
            broadcast use vstd::multiset::group_multiset_axioms;

            let swapped = s0.update(0, s0[n - 1]).update(n - 1, s0[0]);
            assert(self.data@ =~= swapped.remove(n - 1));
            assert(self.data@.to_multiset() =~= s0.to_multiset().remove(s0[0]));
            assert forall|j: int| 0 < j < self.data@.len() && (j - 1) / 2 != 0 implies ahead(
                self.largest_first,
                #[trigger] self.data@[(j - 1) / 2],
                self.data@[j],
            ) by {
                assert(ahead(self.largest_first, s0[(j - 1) / 2], s0[j]));
            }
        }
        let ghost m = self.data@.to_multiset();
        let len = self.data.len();
        let mut i: usize = 0;
        loop
            invariant
                self.largest_first == old(self).largest_first,
                self.data@.len() == len,
                len == n - 1,
                self.data@.to_multiset() == m,
                i <= len,
                forall|j: int|
                    0 < j < len && (j - 1) / 2 != i ==> ahead(
                        self.largest_first,
                        #[trigger] self.data@[(j - 1) / 2],
                        self.data@[j],
                    ),
                forall|j: int|
                    0 < i < len && 0 < j < len && (j - 1) / 2 == i ==> ahead(
                        self.largest_first,
                        self.data@[(i - 1) / 2],
                        #[trigger] self.data@[j],
                    ),
            ensures
                heap_ordered(self.data@, self.largest_first),
            decreases len - i,
        {
            if len < 2 || i > (len - 2) / 2 {
                proof {
                    assert forall|j: int| 0 < j < len implies ahead(
                        self.largest_first,
                        #[trigger] self.data@[(j - 1) / 2],
                        self.data@[j],
                    ) by {
                        assert((j - 1) / 2 != i);
                    }
                }
                break ;
            }
            let left = 2 * i + 1;
            let right = left + 1;
            let mut best = i;
            if !self.before(self.data[best], self.data[left]) {
                best = left;
            }
            if right < len && !self.before(self.data[best], self.data[right]) {
                best = right;
            }
            if best == i {
                proof {
                    assert forall|j: int| 0 < j < len implies ahead(
                        self.largest_first,
                        #[trigger] self.data@[(j - 1) / 2],
                        self.data@[j],
                    ) by {
                        if (j - 1) / 2 == i {
                            assert(j == left || j == right);
                        }
                    }
                }
                break ;
            }
            let ghost prev = self.data@;
            self.swap(i, best);
            proof {
                let cur = self.data@;
                assert forall|j: int| 0 < j < len && (j - 1) / 2 != best implies ahead(
                    self.largest_first,
                    #[trigger] cur[(j - 1) / 2],
                    cur[j],
                ) by {
                    if (j - 1) / 2 == i {
                        assert(j == left || j == right);
                    } else if j == i {
                        assert(ahead(self.largest_first, prev[(i - 1) / 2], prev[best as int]));
                    } else {
                        assert(ahead(self.largest_first, prev[(j - 1) / 2], prev[j]));
                    }
                }
                assert forall|j: int| 0 < j < len && (j - 1) / 2 == best implies ahead(
                    self.largest_first,
                    cur[(best - 1) / 2],
                    #[trigger] cur[j],
                ) by {
                    assert(ahead(self.largest_first, prev[(j - 1) / 2], prev[j]));
                }
            }
            i = best;
        }
        Some(top)
    }

    /// `Vec::shrink_to_fit`: gives spare memory back; the keys stay as they
    /// are.
    #[verifier::external_body]
    pub(crate) fn shrink_to_fit(&mut self)
        ensures
            final(self)@ == old(self)@,
            final(self).descending() == old(self).descending(),
            final(self).wf() == old(self).wf(),
    {
        self.data.shrink_to_fit();
    }

    /// Removes every key.
    pub fn clear(&mut self)
        ensures
            final(self).wf(),
            final(self).descending() == old(self).descending(),
            final(self)@ == Seq::<i64>::empty(),
    {
        self.data.clear();
    }
}

} // verus!
