//! A fixed-capacity circular buffer holding the most recent samples.

use vstd::prelude::*;

verus! {

/// Physical slot of the `i`-th logical element when the oldest element sits
/// in slot `head` of a buffer with `cap` slots.
pub open spec fn slot_of(head: int, i: int, cap: int) -> int {
    if i < cap - head {
        head + i
    } else {
        i - (cap - head)
    }
}

/// The last `n` elements of `s`, or all of `s` if it is shorter.
pub open spec fn last_n<T>(s: Seq<T>, n: int) -> Seq<T> {
    if s.len() <= n {
        s
    } else {
        s.skip(s.len() - n)
    }
}

/// What a window of `cap` slots holds after one more push: the pushed value
/// goes to the end, and a full window drops its oldest value first.
pub open spec fn pushed<T>(held: Seq<T>, cap: int, value: T) -> Seq<T> {
    if held.len() == cap {
        held.skip(1).push(value)
    } else {
        held.push(value)
    }
}

/// A window that holds the last `cap` values of a stream still does so
/// after the next value of the stream is pushed: at any time it holds the
/// last `min(pushes, cap)` values, in push order.
pub proof fn lemma_window_holds_recent<T>(stream: Seq<T>, held: Seq<T>, cap: int, value: T)
    requires
        cap > 0,
        held == last_n(stream, cap),
    ensures
        held.len() <= cap,
        held.len() == if stream.len() <= cap {
            stream.len()
        } else {
            cap as nat
        },
        pushed(held, cap, value) == last_n(stream.push(value), cap),
{
    assert(pushed(held, cap, value) =~= last_n(stream.push(value), cap));
}

/// A fixed-size ring buffer. Once full, every push overwrites the oldest
/// element and hands it back.
#[derive(Debug, Clone)]
pub struct RingBuffer<T> {
    data: Vec<T>,
    index: usize,
    len: usize,
}

impl<T: Default + Copy> RingBuffer<T> {
    /// The raw slots, in storage order.
    pub closed spec fn slots(&self) -> Seq<T> {
        self.data@
    }

    /// Slot index of the oldest element.
    pub closed spec fn head(&self) -> int {
        self.index as int
    }

    /// Number of slots.
    pub closed spec fn cap(&self) -> int {
        self.data@.len() as int
    }

    /// The stored elements, oldest first.
    pub closed spec fn view(&self) -> Seq<T> {
        Seq::new(
            self.len as nat,
            |i: int| self.data@[slot_of(self.index as int, i, self.data@.len() as int)],
        )
    }

    /// Representation invariant.
    pub closed spec fn wf(&self) -> bool {
        &&& self.data@.len() > 0
        &&& self.len <= self.data@.len()
        &&& self.index < self.data@.len()
    }

    /// The logical view reads the slots starting at `head`, wrapping around.
    pub proof fn lemma_view_slots(&self)
        requires
            self.wf(),
        ensures
            self@.len() <= self.cap(),
            self.cap() == self.slots().len(),
            0 <= self.head() < self.cap(),
            forall|i: int|
                0 <= i < self@.len() ==> self@[i] == self.slots()[slot_of(
                    self.head(),
                    i,
                    self.cap(),
                )],
    {
    }

    /// Creates an empty buffer with `capacity` slots, each holding the
    /// default value.
    pub fn new(capacity: usize) -> (r: Self)
        requires
            capacity > 0,
        ensures
            r.wf(),
            r@ == Seq::<T>::empty(),
            r.cap() == capacity,
            r.head() == 0,
            forall|i: int| 0 <= i < capacity ==> call_ensures(T::default, (), #[trigger] r.slots()[i]),
    {
        let mut data: Vec<T> = Vec::with_capacity(capacity);
        let mut i: usize = 0;
        while i < capacity
            invariant
                i <= capacity,
                data@.len() == i,
                forall|j: int| 0 <= j < i ==> call_ensures(T::default, (), #[trigger] data@[j]),
            decreases capacity - i,
        {
            data.push(T::default());
            i += 1;
        }
        let r = RingBuffer { data, index: 0, len: 0 };
        assert(r@ =~= Seq::<T>::empty());
        r
    }

    /// Number of slots.
    pub fn capacity(&self) -> (r: usize)
        ensures
            r == self.cap(),
    {
        self.data.len()
    }

    /// Number of stored elements.
    pub fn len(&self) -> (r: usize)
        ensures
            r == self@.len(),
    {
        self.len
    }

    /// Slot index of the oldest element.
    pub fn index(&self) -> (r: usize)
        ensures
            r == self.head(),
    {
        self.index
    }

    /// Whether every slot holds a stored element.
    pub fn is_full(&self) -> (r: bool)
        ensures
            r == (self@.len() == self.cap()),
    {
        self.len == self.data.len()
    }

    /// Appends `value`. A full buffer drops its oldest element and returns it.
    pub fn push(&mut self, value: T) -> (r: Option<T>)
        requires
            old(self).wf(),
        ensures
            final(self).wf(),
            final(self).cap() == old(self).cap(),
            final(self)@ == pushed(old(self)@, old(self).cap(), value),
            old(self)@.len() == old(self).cap() ==> r == Some(old(self)@[0]),
            old(self)@.len() < old(self).cap() ==> r.is_none(),
    {
        let cap = self.data.len();
        if self.len == cap {
            let overwritten = self.data[self.index];
            self.data.set(self.index, value);
            self.index = if self.index + 1 == cap {
                0
            } else {
                self.index + 1
            };
            assert(self@ =~= old(self)@.skip(1).push(value));
            Some(overwritten)
        } else {
            let room = cap - self.index;
            let insert_at = if self.len < room {
                self.index + self.len
            } else {
                self.len - room
            };
            self.data.set(insert_at, value);
            self.len += 1;
            assert(self@ =~= old(self)@.push(value));
            None
        }
    }

    /// Empties the buffer and restores every slot to the default value.
    pub fn reset(&mut self)
        requires
            old(self).wf(),
        ensures
            final(self).wf(),
            final(self)@ == Seq::<T>::empty(),
            final(self).cap() == old(self).cap(),
            final(self).head() == 0,
            forall|i: int|
                0 <= i < final(self).cap() ==> call_ensures(
                    T::default,
                    (),
                    #[trigger] final(self).slots()[i],
                ),
    {
        self.index = 0;
        self.len = 0;
        let cap = self.data.len();
        let mut i: usize = 0;
        while i < cap
            invariant
                i <= cap,
                self.data@.len() == cap,
                self.index == 0,
                self.len == 0,
                forall|j: int| 0 <= j < i ==> call_ensures(T::default, (), #[trigger] self.data@[j]),
            decreases cap - i,
        {
            self.data.set(i, T::default());
            i += 1;
        }
        assert(self@ =~= Seq::<T>::empty());
    }

    /// The stored elements, oldest first.
    pub fn iter(&self) -> (r: Vec<T>)
        requires
            self.wf(),
        ensures
            r@ == self@,
    {
        let cap = self.data.len();
        let mut out: Vec<T> = Vec::with_capacity(self.len);
        let mut i: usize = 0;
        while i < self.len
            invariant
                self.wf(),
                cap == self.data@.len(),
                i <= self.len,
                out@.len() == i,
                forall|j: int| 0 <= j < i ==> out@[j] == self@[j],
            decreases self.len - i,
        {
            let room = cap - self.index;
            let at = if i < room {
                self.index + i
            } else {
                i - room
            };
            out.push(self.data[at]);
            i += 1;
        }
        assert(out@ =~= self@);
        out
    }

    /// The raw slots, in storage order.
    pub fn as_slice(&self) -> (r: &[T])
        ensures
            r@ == self.slots(),
    {
        self.data.as_slice()
    }

    /// A mutable reference to the raw slot `i`, in storage order; `None`
    /// where the buffer has no such slot. Head and length are not touched.
    pub fn slot_mut(&mut self, i: usize) -> (r: Option<&mut T>)
        requires
            old(self).wf(),
        ensures
            final(self).wf(),
            final(self).head() == old(self).head(),
            final(self)@.len() == old(self)@.len(),
            final(self).cap() == old(self).cap(),
            i >= old(self).cap() ==> r.is_none() && final(self).slots() == old(self).slots(),
            i < old(self).cap() ==> r.is_some() && *r.unwrap() == old(self).slots()[i as int]
                && final(self).slots() == old(self).slots().update(i as int, *final(r.unwrap())),
    {
        if i >= self.data.len() {
            None
        } else {
            Some(&mut self.data[i])
        }
    }

    /// Overwrites every slot from `slice`, leaving head and length untouched.
    pub fn copy_from_slice(&mut self, slice: &[T])
        requires
            old(self).wf(),
            slice@.len() == old(self).cap(),
        ensures
            final(self).wf(),
            final(self).slots() == slice@,
            final(self).head() == old(self).head(),
            final(self)@.len() == old(self)@.len(),
            final(self).cap() == old(self).cap(),
    {
        let cap = self.data.len();
        let mut i: usize = 0;
        while i < cap
            invariant
                i <= cap,
                cap == slice@.len(),
                self.data@.len() == cap,
                self.index == old(self).index,
                self.len == old(self).len,
                forall|j: int| 0 <= j < i ==> self.data@[j] == slice@[j],
            decreases cap - i,
        {
            self.data.set(i, slice[i]);
            i += 1;
        }
        assert(self.data@ =~= slice@);
    }
    /// Sorts the raw slots in ascending order and returns them. The slots
    /// keep their elements; head and length are not touched.
    pub fn sort(&mut self) -> (r: &[T]) where T: PartialOrd + Copy
        requires
            old(self).wf(),
        ensures
            final(self).wf(),
            r@ == final(self).slots(),
            final(self).slots().to_multiset() == old(self).slots().to_multiset(),
            crate::order::order_known::<T>() ==> crate::order::ascending(final(self).slots()),
            final(self).head() == old(self).head(),
            final(self)@.len() == old(self)@.len(),
    {
        crate::order::insertion_sort(&mut self.data);
        self.data.as_slice()
    }
}

} // verus!
