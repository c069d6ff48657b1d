//! A fixed-period circular window that hands back the value each push
//! overwrites.

use crate::ring_buffer::{pushed, slot_of};
use vstd::prelude::*;

verus! {

/// A fixed-size circular window over the last `period` values. Slots start
/// out holding the default value.
#[derive(Debug, Clone)]
pub struct Window<T> {
    buf: Vec<T>,
    period: usize,
    pos: usize,
    full: bool,
}

impl<T> Window<T> {
    /// The raw slots, in storage order.
    pub closed spec fn slots(&self) -> Seq<T> {
        self.buf@
    }

    /// The slot that the next push writes.
    pub closed spec fn head(&self) -> int {
        self.pos as int
    }

    /// The window length fixed at construction.
    pub closed spec fn span(&self) -> int {
        self.period as int
    }

    /// Whether the window has wrapped at least once.
    pub closed spec fn filled(&self) -> bool {
        self.full
    }

    /// The values pushed so far that are still in the window, oldest first.
    pub closed spec fn view(&self) -> Seq<T> {
        if self.full {
            Seq::new(
                self.period as nat,
                |i: int| self.buf@[slot_of(self.pos as int, i, self.period as int)],
            )
        } else {
            self.buf@.take(self.pos as int)
        }
    }

    /// Representation invariant.
    pub closed spec fn wf(&self) -> bool {
        &&& self.period > 0
        &&& self.buf@.len() == self.period
        &&& self.pos < self.period
    }

    /// How the logical window reads the slots.
    pub proof fn lemma_view(&self)
        requires
            self.wf(),
        ensures
            self.span() > 0,
            self.slots().len() == self.span(),
            0 <= self.head() < self.span(),
            self@.len() == if self.filled() {
                self.span()
            } else {
                self.head()
            },
            forall|i: int|
                0 <= i < self@.len() ==> self@[i] == self.slots()[if self.filled() {
                    slot_of(self.head(), i, self.span())
                } else {
                    i
                }],
    {
    }

    /// Creates a window of `period` slots, each holding the default value.
    pub fn new(period: usize) -> (r: Self) where T: Default + Clone
        requires
            period > 0,
        ensures
            r.wf(),
            r.span() == period,
            r.head() == 0,
            !r.filled(),
            r@ == Seq::<T>::empty(),
            forall|i: int| 0 <= i < period ==> call_ensures(T::default, (), #[trigger] r.slots()[i]),
    {
        let mut buf: Vec<T> = Vec::with_capacity(period);
        let mut i: usize = 0;
        while i < period
            invariant
                i <= period,
                buf@.len() == i,
                forall|j: int| 0 <= j < i ==> call_ensures(T::default, (), #[trigger] buf@[j]),
            decreases period - i,
        {
            buf.push(T::default());
            i += 1;
        }
        let r = Window { buf, period, pos: 0, full: false };
        assert(r@ =~= Seq::<T>::empty());
        r
    }

    /// Restores every slot to the default value and forgets all pushes.
    pub fn reset(&mut self) where T: Default + Copy
        requires
            old(self).wf(),
        ensures
            final(self).wf(),
            final(self).span() == old(self).span(),
            final(self).head() == 0,
            !final(self).filled(),
            final(self)@ == Seq::<T>::empty(),
            forall|i: int|
                0 <= i < final(self).span() ==> call_ensures(
                    T::default,
                    (),
                    #[trigger] final(self).slots()[i],
                ),
    {
        let mut i: usize = 0;
        while i < self.period
            invariant
                i <= self.period,
                self.period == old(self).period,
                self.period > 0,
                self.buf@.len() == self.period,
                forall|j: int| 0 <= j < i ==> call_ensures(T::default, (), #[trigger] self.buf@[j]),
            decreases self.period - i,
        {
            self.buf.set(i, T::default());
            i += 1;
        }
        self.pos = 0;
        self.full = false;
        assert(self@ =~= Seq::<T>::empty());
    }

    /// Whether the window has wrapped at least once.
    pub fn is_full(&self) -> (r: bool)
        ensures
            r == self.filled(),
    {
        self.full
    }

    /// Number of values in the window.
    pub fn len(&self) -> (r: usize)
        requires
            self.wf(),
        ensures
            r == self@.len(),
    {
        if self.full {
            self.period
        } else {
            self.pos
        }
    }

    /// The slot that the next push writes.
    pub fn index(&self) -> (r: usize)
        ensures
            r == self.head(),
    {
        self.pos
    }

    /// Pushes `value` and returns what its slot held before: the oldest
    /// value once the window has wrapped, the initial slot content before.
    pub fn next(&mut self, value: T) -> (r: T)
        requires
            old(self).wf(),
        ensures
            final(self).wf(),
            final(self).span() == old(self).span(),
            r == old(self).slots()[old(self).head()],
            final(self).slots() == old(self).slots().update(old(self).head(), value),
            final(self).head() == if old(self).head() + 1 == old(self).span() {
                0
            } else {
                old(self).head() + 1
            },
            final(self).filled() == (old(self).filled() || final(self).head() == 0),
            old(self).filled() ==> r == old(self)@[0],
            old(self).filled() ==> final(self)@ == pushed(old(self)@, old(self).span(), value),
            !old(self).filled() ==> final(self)@ == old(self)@.push(value),
    {
        let mut value = value;
        let ghost pushed = value;
        core::mem::swap(&mut self.buf[self.pos], &mut value);
        self.pos = if self.pos + 1 == self.period {
            0
        } else {
            self.pos + 1
        };
        if self.pos == 0 {
            self.full = true;
        }
        proof {
            if old(self).full {
                assert(self@ =~= old(self)@.skip(1).push(pushed));
            } else {
                assert(self@ =~= old(self)@.push(pushed));
            }
        }
        value
    }

    /// The values in the window, oldest first.
    pub fn iter(&self) -> (r: Vec<T>) where T: Copy
        requires
            self.wf(),
        ensures
            r@ == self@,
    {
        let count = self.len();
        let start = if self.full {
            self.pos
        } else {
            0
        };
        let mut out: Vec<T> = Vec::with_capacity(count);
        let mut i: usize = 0;
        while i < count
            invariant
                self.wf(),
                count == self@.len(),
                start == if self.full {
                    self.pos
                } else {
                    0
                },
                i <= count,
                out@.len() == i,
                forall|j: int| 0 <= j < i ==> out@[j] == self@[j],
            decreases count - i,
        {
            let room = self.period - start;
            let at = if i < room {
                start + i
            } else {
                i - room
            };
            out.push(self.buf[at]);
            i += 1;
        }
        assert(out@ =~= self@);
        out
    }

    /// The raw slots, in storage order.
    pub fn as_slice(&self) -> (r: &[T])
        ensures
            r@ == self.slots(),
    {
        self.buf.as_slice()
    }

    /// A mutable reference to the raw slot `i`, in storage order; `None`
    /// where the window has no such slot. Head and fill state are not
    /// touched.
    pub fn slot_mut(&mut self, i: usize) -> (r: Option<&mut T>)
        requires
            old(self).wf(),
        ensures
            final(self).wf(),
            final(self).head() == old(self).head(),
            final(self).filled() == old(self).filled(),
            final(self).span() == old(self).span(),
            i >= old(self).span() ==> r.is_none() && final(self).slots() == old(self).slots(),
            i < old(self).span() ==> r.is_some() && *r.unwrap() == old(self).slots()[i as int]
                && final(self).slots() == old(self).slots().update(i as int, *final(r.unwrap())),
    {
        if i >= self.period {
            None
        } else {
            Some(&mut self.buf[i])
        }
    }

    /// Overwrites every slot from `slice`, leaving head and fill state
    /// untouched.
    pub fn copy_from_slice(&mut self, slice: &[T]) where T: Copy
        requires
            old(self).wf(),
            slice@.len() == old(self).span(),
        ensures
            final(self).wf(),
            final(self).slots() == slice@,
            final(self).head() == old(self).head(),
            final(self).filled() == old(self).filled(),
            final(self).span() == old(self).span(),
    {
        let mut i: usize = 0;
        while i < self.period
            invariant
                i <= self.period,
                self.period == slice@.len(),
                self.period == old(self).period,
                self.buf@.len() == self.period,
                self.pos == old(self).pos,
                self.full == old(self).full,
                forall|j: int| 0 <= j < i ==> self.buf@[j] == slice@[j],
            decreases self.period - i,
        {
            self.buf.set(i, slice[i]);
            i += 1;
        }
        assert(self.buf@ =~= slice@);
    }
    /// Sorts the raw slots in ascending order and returns them. The slots
    /// keep their elements; head and length are not touched.
    pub fn sort(&mut self) -> (r: &[T]) where T: PartialOrd + Copy
        requires
            old(self).wf(),
        ensures
            final(self).wf(),
            r@ == final(self).slots(),
            final(self).slots().to_multiset() == old(self).slots().to_multiset(),
            crate::order::order_known::<T>() ==> crate::order::ascending(final(self).slots()),
            final(self).head() == old(self).head(),
            final(self)@.len() == old(self)@.len(),
    {
        crate::order::insertion_sort(&mut self.buf);
        self.buf.as_slice()
    }
}

} // verus!
