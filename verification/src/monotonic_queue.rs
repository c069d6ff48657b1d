//! A monotonic queue: the extremum of the last `W` pushed values in O(1)
//! amortised time per push.

use crate::deque::Deque;
use crate::ring_buffer::last_n;
use core::marker::PhantomData;
use vstd::prelude::*;
use vstd::std_specs::cmp::PartialOrdIs;
use vstd::std_specs::cmp::PartialOrdSpec;

verus! {

/// Decides which queued values a new value makes useless.
pub trait OrderPolicy<T> {
    /// Whether `should_remove` is known to compute `dominated`.
    spec fn obeys() -> bool;

    /// The new value makes the existing one useless: it is at least as
    /// good an extremum, and it stays in the window longer.
    spec fn dominated(existing: T, new: T) -> bool;

    fn should_remove(existing: &T, new: &T) -> (r: bool)
        ensures
            Self::obeys() ==> r == Self::dominated(*existing, *new),
    ;
}

/// Keeps the smallest value at the front.
#[derive(Debug, Clone)]
pub struct Min;

/// Keeps the largest value at the front.
#[derive(Debug, Clone)]
pub struct Max;

impl<T: PartialOrd> OrderPolicy<T> for Min {
    open spec fn obeys() -> bool {
        T::obeys_partial_cmp_spec()
    }

    open spec fn dominated(existing: T, new: T) -> bool {
        existing.is_ge(&new)
    }

    fn should_remove(existing: &T, new: &T) -> (r: bool) {
        *existing >= *new
    }
}

impl<T: PartialOrd> OrderPolicy<T> for Max {
    open spec fn obeys() -> bool {
        T::obeys_partial_cmp_spec()
    }

    open spec fn dominated(existing: T, new: T) -> bool {
        existing.is_le(&new)
    }

    fn should_remove(existing: &T, new: &T) -> (r: bool) {
        *existing <= *new
    }
}

/// The policy decides by a total order: of two values one dominates the
/// other (equal values dominate each other), and domination is
/// transitive.
pub open spec fn lawful<T, O: OrderPolicy<T>>() -> bool {
    &&& O::obeys()
    &&& forall|a: T, b: T| #[trigger] O::dominated(a, b) || O::dominated(b, a)
    &&& forall|a: T, b: T, c: T|
        #[trigger] O::dominated(a, b) && #[trigger] O::dominated(b, c) ==> O::dominated(a, c)
}

/// Position of the entry before entry `i`, or -1 for the first entry.
spec fn prev_pos<T>(d: Seq<(T, usize)>, i: int) -> int {
    if i == 0 {
        -1
    } else {
        d[i - 1].1 as int
    }
}

/// Entry `i` is at least as good as the value pushed at position `q`.
spec fn withstands<T, O: OrderPolicy<T>>(
    d: Seq<(T, usize)>,
    h: Seq<T>,
    i: int,
    q: int,
) -> bool {
    O::dominated(h[q], d[i].0)
}

/// Entry `i` is not dominated by the later entry `j`.
spec fn precedes<T, O: OrderPolicy<T>>(d: Seq<(T, usize)>, i: int, j: int) -> bool {
    !O::dominated(d[i].0, d[j].0)
}

/// Entry `j` lies at least `j - i` positions after entry `i`.
spec fn spaced<T>(d: Seq<(T, usize)>, i: int, j: int) -> bool {
    d[i].1 + (j - i) <= d[j].1
}

/// The entries are values of the history `h` at increasing positions from
/// `lo` on, the last entry being the most recent push.
spec fn entries_ok<T>(d: Seq<(T, usize)>, h: Seq<T>, lo: int) -> bool {
    &&& forall|i: int|
        0 <= i < d.len() ==> lo <= (#[trigger] d[i]).1 < h.len() && d[i].0 == h[d[i].1 as int]
    &&& forall|i: int, j: int| 0 <= i < j < d.len() ==> #[trigger] spaced(d, i, j)
    &&& d.len() > 0 ==> d.last().1 == h.len() - 1
}

/// Every position from `lo` on is withstood by the first entry at or after
/// it, and no entry is dominated by a later one.
spec fn covered<T, O: OrderPolicy<T>>(d: Seq<(T, usize)>, h: Seq<T>, lo: int) -> bool {
    &&& forall|i: int, q: int|
        0 <= i < d.len() && lo <= q <= d[i].1 && prev_pos(d, i) < q ==> #[trigger] withstands::<
            T,
            O,
        >(d, h, i, q)
    &&& forall|i: int, j: int| 0 <= i < j < d.len() ==> #[trigger] precedes::<T, O>(d, i, j)
}

/// With a lawful policy, the front entry withstands every position from
/// `lo` up to the position of entry `i`.
proof fn lemma_front_withstands<T, O: OrderPolicy<T>>(
    d: Seq<(T, usize)>,
    h: Seq<T>,
    lo: int,
    i: int,
    q: int,
)
    requires
        lawful::<T, O>(),
        0 <= lo,
        entries_ok(d, h, lo),
        covered::<T, O>(d, h, lo),
        0 <= i < d.len(),
        lo <= q <= d[i].1,
    ensures
        O::dominated(h[q], d[0].0),
    decreases i,
{
    if prev_pos(d, i) < q {
        assert(withstands::<T, O>(d, h, i, q));
        if i > 0 {
            assert(precedes::<T, O>(d, 0, i));
            assert(O::dominated(d[0].0, d[i].0) || O::dominated(d[i].0, d[0].0));
        }
    } else {
        lemma_front_withstands::<T, O>(d, h, lo, i - 1, q);
    }
}

/// The minimum or maximum of a sliding window over a stream.
pub struct MonotonicQueue<T, O> {
    deque: Deque<(T, usize)>,
    element_count: usize,
    history: Ghost<Seq<T>>,
    _order: PhantomData<O>,
}

impl<T, O> MonotonicQueue<T, O> where T: PartialOrd + Copy + Default, O: OrderPolicy<T> {
    /// All values pushed since construction or the last reset.
    pub closed spec fn history(&self) -> Seq<T> {
        self.history@
    }

    /// The window length fixed at construction.
    pub closed spec fn span(&self) -> int {
        self.deque.slots() as int
    }

    /// The values that the window holds: the last `span` pushes.
    pub open spec fn window(&self) -> Seq<T> {
        last_n(self.history(), self.span())
    }

    /// Position of the oldest push that is still in the window.
    pub open spec fn window_start(&self) -> int {
        if self.history().len() <= self.span() {
            0
        } else {
            self.history().len() - self.span()
        }
    }

    /// Representation invariant.
    pub closed spec fn wf(&self) -> bool {
        &&& self.deque.wf()
        &&& self.element_count == self.history@.len()
        &&& entries_ok(self.deque@, self.history@, self.window_start())
        &&& self.history@.len() > 0 ==> self.deque@.len() > 0
        &&& lawful::<T, O>() ==> covered::<T, O>(self.deque@, self.history@, self.window_start())
    }

    /// The window of a well-formed queue has room for at least one value.
    pub proof fn lemma_span(&self)
        requires
            self.wf(),
        ensures
            self.span() > 0,
    {
        self.deque.lemma_len();
    }

    /// Creates an empty queue over a window of `window_size` values.
    pub fn new(window_size: usize) -> (r: Self)
        requires
            window_size > 0,
        ensures
            r.wf(),
            r.span() == window_size,
            r.history() == Seq::<T>::empty(),
    {
        MonotonicQueue {
            deque: Deque::new(window_size),
            element_count: 0,
            history: Ghost(Seq::empty()),
            _order: PhantomData,
        }
    }

    /// The window length.
    pub fn capacity(&self) -> (r: usize)
        ensures
            r == self.span(),
    {
        self.deque.capacity()
    }

    /// How many values have been pushed since construction or the last
    /// reset.
    pub fn count(&self) -> (r: usize)
        requires
            self.wf(),
        ensures
            r == self.history().len(),
    {
        self.element_count
    }

    /// Whether at least `span` values have been pushed.
    pub fn has_complete_window(&self) -> (r: bool)
        requires
            self.wf(),
        ensures
            r == (self.history().len() >= self.span()),
    {
        self.element_count >= self.capacity()
    }

    /// Whether the entries fit the window that the next push opens.
    spec fn ready(&self) -> bool {
        let lo = if self.history@.len() < self.span() {
            0
        } else {
            self.history@.len() - self.span() + 1
        };
        &&& self.deque.wf()
        &&& self.span() > 0
        &&& self.element_count == self.history@.len()
        &&& entries_ok(self.deque@, self.history@, lo)
        &&& self.deque@.len() == 0 ==> lo >= self.history@.len()
        &&& lawful::<T, O>() ==> covered::<T, O>(self.deque@, self.history@, lo)
    }

    fn remove_expired_elements(&mut self)
        requires
            old(self).wf(),
        ensures
            final(self).ready(),
            final(self).history@ == old(self).history@,
            final(self).span() == old(self).span(),
    {
        proof {
            self.deque.lemma_len();
            if lawful::<T, O>() {
                let d = self.deque@;
                let h = self.history@;
                assert forall|i: int, q: int|
                    0 <= i < d.len() && self.next_start() <= q <= d[i].1 && prev_pos(d, i)
                        < q implies #[trigger] withstands::<T, O>(d, h, i, q) by {
                    assert(withstands::<T, O>(d, h, i, q));
                }
            }
        }
        loop
            invariant
                self.deque.wf(),
                self.span() > 0,
                self.span() == old(self).span(),
                self.history@ == old(self).history@,
                self.element_count == self.history@.len(),
                entries_ok(self.deque@, self.history@, self.window_start()),
                self.deque@.len() == 0 ==> self.next_start() >= self.history@.len(),
                lawful::<T, O>() ==> covered::<T, O>(
                    self.deque@,
                    self.history@,
                    self.next_start(),
                ),
            ensures
                self.deque@.len() > 0 ==> self.deque@[0].1 >= self.next_start(),
            decreases self.deque@.len(),
        {
            let pos = match self.deque.front() {
                Some(entry) => entry.1,
                None => {
                    break ;
                },
            };
            let ghost d = self.deque@;
            let ghost h = self.history@;
            if self.is_position_outside_window(pos) {
                self.deque.pop_front();
                proof {
                    let d2 = self.deque@;
                    let lo = self.window_start();
                    assert forall|i: int, j: int| 0 <= i < j < d2.len() implies #[trigger] spaced(
                        d2,
                        i,
                        j,
                    ) by {
                        assert(spaced(d, i + 1, j + 1));
                    }
                    assert forall|i: int| 0 <= i < d2.len() implies lo <= (#[trigger] d2[i]).1
                        < h.len() && d2[i].0 == h[d2[i].1 as int] by {
                        assert(d2[i] == d[i + 1]);
                    }
                    if d2.len() > 0 {
                        assert(d2.last() == d.last());
                    }
                    if lawful::<T, O>() {
                        assert forall|i: int, q: int|
                            0 <= i < d2.len() && self.next_start() <= q <= d2[i].1 && prev_pos(
                                d2,
                                i,
                            ) < q implies #[trigger] withstands::<T, O>(d2, h, i, q) by {
                            assert(d2[i] == d[i + 1]);
                            if i > 0 {
                                assert(d2[i - 1] == d[i]);
                            }
                            assert(withstands::<T, O>(d, h, i + 1, q));
                        }
                        assert forall|i: int, j: int| 0 <= i < j < d2.len() implies #[trigger] precedes::<
                            T,
                            O,
                        >(d2, i, j) by {
                            assert(precedes::<T, O>(d, i + 1, j + 1));
                        }
                    }
                }
            } else {
                break ;
            }
        }
        proof {
            let d = self.deque@;
            let lo = self.next_start();
            assert forall|i: int| 0 <= i < d.len() implies lo <= (#[trigger] d[i]).1 by {
                if i > 0 {
                    assert(spaced(d, 0, i));
                }
            }
        }
    }

    /// Whether a queue entry pushed at `pos` falls out of the window with
    /// the next push.
    fn is_position_outside_window(&self, pos: usize) -> (r: bool)
        requires
            self.deque.wf(),
            self.element_count == self.history@.len(),
        ensures
            r == (pos < self.next_start()),
    {
        let cap = self.deque.capacity();
        proof {
            self.deque.lemma_len();
        }
        if self.element_count < cap {
            return false;
        }
        let window_start = self.element_count - cap;
        pos <= window_start
    }

    fn maintain_monotonic_property(&mut self, value: T)
        requires
            old(self).ready(),
        ensures
            final(self).deque.wf(),
            final(self).span() == old(self).span(),
            final(self).history@ == old(self).history@,
            final(self).element_count == old(self).element_count,
            final(self).deque@ == old(self).deque@.take(final(self).deque@.len() as int),
            final(self).deque@.len() <= old(self).deque@.len(),
            lawful::<T, O>() ==> (final(self).deque@.len() > 0 ==> !O::dominated(
                final(self).deque@.last().0,
                value,
            )) && forall|q: int|
                prev_pos(final(self).deque@, final(self).deque@.len() as int) < q < final(self).history@.len() && final(self).next_start() <= q ==> O::dominated(
                    #[trigger] final(self).history@[q],
                    value,
                ),
    {
        let ghost d0 = self.deque@;
        let ghost h = self.history@;
        let ghost lo = self.next_start();
        proof {
            assert(d0 =~= d0.take(d0.len() as int));
        }
        loop
            invariant
                self.deque.wf(),
                self.span() == old(self).span(),
                self.history@ == h,
                self.element_count == old(self).element_count,
                lo == self.next_start(),
                entries_ok(d0, h, lo),
                lawful::<T, O>() ==> covered::<T, O>(d0, h, lo),
                self.deque@.len() <= d0.len(),
                self.deque@ == d0.take(self.deque@.len() as int),
                lawful::<T, O>() ==> forall|q: int|
                    prev_pos(self.deque@, self.deque@.len() as int) < q < h.len() && lo <= q
                        ==> O::dominated(#[trigger] h[q], value),
            ensures
                lawful::<T, O>() && self.deque@.len() > 0 ==> !O::dominated(
                    self.deque@.last().0,
                    value,
                ),
            decreases self.deque@.len(),
        {
            let existing = match self.deque.back() {
                Some(entry) => entry.0,
                None => {
                    break ;
                },
            };
            let ghost d = self.deque@;
            if O::should_remove(&existing, &value) {
                self.deque.pop_back();
                proof {
                    let d2 = self.deque@;
                    let n = d.len() - 1;
                    assert(d2 =~= d0.take(d2.len() as int));
                    if lawful::<T, O>() {
                        assert(d[n] == d0[n]);
                        assert forall|q: int|
                            prev_pos(d2, d2.len() as int) < q < h.len() && lo
                                <= q implies O::dominated(#[trigger] h[q], value) by {
                            if q <= d[n].1 {
                                if n > 0 {
                                    assert(d2[n - 1] == d0[n - 1]);
                                }
                                assert(prev_pos(d0, n) < q);
                                assert(withstands::<T, O>(d0, h, n, q));
                                assert(O::dominated(d0[n].0, value));
                            }
                        }
                    }
                }
            } else {
                break ;
            }
        }
    }

    /// Position of the oldest push that the window holds after the next
    /// push.
    spec fn next_start(&self) -> int {
        if self.history@.len() < self.span() {
            0
        } else {
            self.history@.len() - self.span() + 1
        }
    }

    /// Pushes `value`, the newest element of the window.
    pub fn push(&mut self, value: T)
        requires
            old(self).wf(),
            old(self).history().len() < usize::MAX,
        ensures
            final(self).wf(),
            final(self).span() == old(self).span(),
            final(self).history() == old(self).history().push(value),
    {
        self.remove_expired_elements();
        let ghost d1 = self.deque@;
        let ghost h = self.history@;
        let ghost lo = self.next_start();
        self.maintain_monotonic_property(value);
        let ghost d2 = self.deque@;
        proof {
            // positions are spread over fewer than `span` places: room is left
            if d2.len() > 0 {
                assert(d2[0] == d1[0]);
                assert(d2.last() == d1[d2.len() - 1]);
                if d2.len() > 1 {
                    assert(spaced(d1, 0, d2.len() - 1));
                }
                assert(d2.len() < self.span());
            }
        }
        self.deque.push_back((value, self.element_count));
        self.element_count += 1;
        proof {
            let h2 = h.push(value);
            self.history = Ghost(h2);
            let d3 = self.deque@;
            let k = d2.len() as int;
            assert(d3 == d2.push((value, old(self).element_count)));
            assert(self.window_start() == lo);
            assert forall|i: int| 0 <= i < d3.len() implies lo <= (#[trigger] d3[i]).1 < h2.len()
                && d3[i].0 == h2[d3[i].1 as int] by {
                if i < k {
                    assert(d3[i] == d1[i]);
                }
            }
            assert forall|i: int, j: int| 0 <= i < j < d3.len() implies #[trigger] spaced(
                d3,
                i,
                j,
            ) by {
                assert(d3[i] == d1[i]);
                if j < k {
                    assert(spaced(d1, i, j));
                } else {
                    if i < k - 1 {
                        assert(spaced(d1, i, k - 1));
                    }
                    assert(d1[k - 1].1 < h.len());
                }
            }
            if lawful::<T, O>() {
                assert forall|i: int, j: int| 0 <= i < j < d3.len() implies #[trigger] precedes::<
                    T,
                    O,
                >(d3, i, j) by {
                    assert(d3[i] == d1[i]);
                    if j < k {
                        assert(precedes::<T, O>(d1, i, j));
                    } else {
                        if i < k - 1 {
                            assert(precedes::<T, O>(d1, i, k - 1));
                        }
                        assert(d2.last() == d1[k - 1]);
                        assert(!O::dominated(d1[k - 1].0, value));
                        assert(O::dominated(value, d1[k - 1].0) || O::dominated(
                            d1[k - 1].0,
                            value,
                        ));
                        if O::dominated(d1[i].0, value) {
                            assert(O::dominated(d1[i].0, d1[k - 1].0));
                        }
                    }
                }
                assert forall|i: int, q: int|
                    0 <= i < d3.len() && lo <= q <= d3[i].1 && prev_pos(d3, i)
                        < q implies #[trigger] withstands::<T, O>(d3, h2, i, q) by {
                    if i < k {
                        assert(d3[i] == d1[i]);
                        if i > 0 {
                            assert(d3[i - 1] == d1[i - 1]);
                        }
                        assert(withstands::<T, O>(d1, h, i, q));
                    } else {
                        if k > 0 {
                            assert(d3[k - 1] == d2[k - 1]);
                        }
                        if q < h.len() {
                            assert(O::dominated(h[q], value));
                        } else {
                            assert(O::dominated(value, value) || O::dominated(value, value));
                        }
                    }
                }
            }
        }
    }

    /// The value at the front of the queue, if any value was pushed.
    pub closed spec fn extremum(&self) -> Option<T> {
        if self.deque@.len() > 0 {
            Some(self.deque@[0].0)
        } else {
            None
        }
    }

    /// After any run of pushes, the front of the queue is the extremum of
    /// the window: it is one of the last `span` pushed values (of all of
    /// them, while fewer were pushed), and under a lawful policy it
    /// dominates each of them.
    pub proof fn lemma_front_is_extremum(&self)
        requires
            self.wf(),
        ensures
            self.span() > 0,
            self.window().len() == if self.history().len() <= self.span() {
                self.history().len() as int
            } else {
                self.span()
            },
            self.history().len() == 0 ==> self.extremum().is_none(),
            self.history().len() > 0 ==> self.extremum().is_some() && self.window().contains(
                self.extremum().unwrap(),
            ),
            lawful::<T, O>() && self.extremum().is_some() ==> forall|i: int|
                0 <= i < self.window().len() ==> O::dominated(
                    #[trigger] self.window()[i],
                    self.extremum().unwrap(),
                ),
    {
        self.deque.lemma_len();
        let d = self.deque@;
        let h = self.history@;
        let lo = self.window_start();
        let w = self.window();
        if d.len() > 0 {
            let value = d[0].0;
            assert(w[d[0].1 - lo] == value);
            if lawful::<T, O>() {
                assert forall|i: int| 0 <= i < w.len() implies O::dominated(
                    #[trigger] w[i],
                    value,
                ) by {
                    lemma_front_withstands::<T, O>(d, h, lo, d.len() - 1, lo + i);
                    assert(w[i] == h[lo + i]);
                }
            }
        }
    }

    /// The extremum of the window: the front of the queue. It is a value
    /// of the window, and under a lawful policy it dominates every value
    /// of the window: none is smaller under `Min`, none larger under `Max`.
    pub fn front(&self) -> (r: Option<T>)
        requires
            self.wf(),
        ensures
            r == self.extremum(),
            self.history().len() == 0 ==> r.is_none(),
            self.history().len() > 0 ==> r.is_some() && self.window().contains(r.unwrap()),
            lawful::<T, O>() && r.is_some() ==> forall|i: int|
                0 <= i < self.window().len() ==> O::dominated(
                    #[trigger] self.window()[i],
                    r.unwrap(),
                ),
    {
        proof {
            self.lemma_front_is_extremum();
            self.deque.lemma_len();
        }
        match self.deque.front() {
            Some(entry) => Some(entry.0),
            None => None,
        }
    }

    /// Forgets all pushes.
    pub fn reset(&mut self)
        requires
            old(self).wf(),
        ensures
            final(self).wf(),
            final(self).span() == old(self).span(),
            final(self).history() == Seq::<T>::empty(),
    {
        self.deque.reset();
        self.element_count = 0;
        self.history = Ghost(Seq::empty());
    }

    /// Whether nothing has been pushed since construction or the last
    /// reset.
    pub fn is_empty(&self) -> (r: bool)
        requires
            self.wf(),
        ensures
            r == (self.history().len() == 0),
    {
        self.deque.is_empty()
    }
}

/// On `i64`, keeping the smallest value is a lawful policy, and a value
/// is dominated by every value that is not larger.
pub proof fn lemma_min_lawful_i64()
    ensures
        lawful::<i64, Min>(),
        forall|a: i64, b: i64| <Min as OrderPolicy<i64>>::dominated(a, b) <==> a >= b,
{
}

/// On `i64`, keeping the largest value is a lawful policy, and a value is
/// dominated by every value that is not smaller.
pub proof fn lemma_max_lawful_i64()
    ensures
        lawful::<i64, Max>(),
        forall|a: i64, b: i64| <Max as OrderPolicy<i64>>::dominated(a, b) <==> a <= b,
{
}

/// After any run of pushes of integers, the front of a minimum queue is
/// the smallest of the last `span` pushed values.
pub proof fn lemma_front_is_minimum(q: &MonotonicQueue<i64, Min>)
    requires
        q.wf(),
        q.history().len() > 0,
    ensures
        q.extremum().is_some(),
        q.window().contains(q.extremum().unwrap()),
        forall|i: int| 0 <= i < q.window().len() ==> q.extremum().unwrap() <= #[trigger] q.window()[i],
{
    lemma_min_lawful_i64();
    q.lemma_front_is_extremum();
    let e = q.extremum().unwrap();
    assert forall|i: int| 0 <= i < q.window().len() implies e <= #[trigger] q.window()[i] by {
        assert(<Min as OrderPolicy<i64>>::dominated(q.window()[i], e));
    }
}

/// After any run of pushes of integers, the front of a maximum queue is
/// the largest of the last `span` pushed values.
pub proof fn lemma_front_is_maximum(q: &MonotonicQueue<i64, Max>)
    requires
        q.wf(),
        q.history().len() > 0,
    ensures
        q.extremum().is_some(),
        q.window().contains(q.extremum().unwrap()),
        forall|i: int| 0 <= i < q.window().len() ==> q.extremum().unwrap() >= #[trigger] q.window()[i],
{
    lemma_max_lawful_i64();
    q.lemma_front_is_extremum();
    let e = q.extremum().unwrap();
    assert forall|i: int| 0 <= i < q.window().len() implies e >= #[trigger] q.window()[i] by {
        assert(<Max as OrderPolicy<i64>>::dominated(q.window()[i], e));
    }
}

} // verus!
