//! A fixed-capacity double-ended queue over a circular buffer.

use crate::ring_buffer::slot_of;
use vstd::prelude::*;

verus! {

/// A fixed-size double-ended queue. Pushing at the back of a full queue
/// evicts the front element.
#[derive(Debug, Clone)]
pub struct Deque<T> {
    buf: Vec<T>,
    cap: usize,
    front: usize,
    back: usize,
    len: usize,
}

impl<T> Deque<T> where T: Default + Clone {
    /// The queued elements, front first.
    pub closed spec fn view(&self) -> Seq<T> {
        Seq::new(
            self.len as nat,
            |i: int| self.buf@[slot_of(self.front as int, i, self.cap as int)],
        )
    }

    /// Number of slots.
    pub closed spec fn slots(&self) -> nat {
        self.cap as nat
    }

    /// Representation invariant.
    pub closed spec fn wf(&self) -> bool {
        &&& self.cap > 0
        &&& self.buf@.len() == self.cap
        &&& self.front < self.cap
        &&& self.len <= self.cap
        &&& self.back == slot_of(self.front as int, self.len as int, self.cap as int)
    }

    /// A well-formed queue never holds more elements than it has slots.
    pub proof fn lemma_len(&self)
        requires
            self.wf(),
        ensures
            self@.len() <= self.slots(),
            self.slots() > 0,
    {
    }

    /// Creates an empty queue with `cap` slots.
    pub fn new(cap: usize) -> (r: Self)
        requires
            cap > 0,
        ensures
            r.wf(),
            r@ == Seq::<T>::empty(),
            r.slots() == cap,
    {
        let mut buf: Vec<T> = Vec::with_capacity(cap);
        let mut i: usize = 0;
        while i < cap
            invariant
                i <= cap,
                buf@.len() == i,
            decreases cap - i,
        {
            buf.push(T::default());
            i += 1;
        }
        let r = Deque { buf, cap, front: 0, back: 0, len: 0 };
        assert(r@ =~= Seq::<T>::empty());
        r
    }

    /// Whether the queue holds no element.
    pub fn is_empty(&self) -> (r: bool)
        ensures
            r == (self@.len() == 0),
    {
        self.len == 0
    }

    /// Whether every slot is taken.
    pub fn is_full(&self) -> (r: bool)
        ensures
            r == (self@.len() == self.slots()),
    {
        self.len == self.cap
    }

    /// Number of queued elements.
    pub fn len(&self) -> (r: usize)
        ensures
            r == self@.len(),
    {
        self.len
    }

    /// Number of slots.
    pub fn capacity(&self) -> (r: usize)
        ensures
            r == self.slots(),
    {
        self.cap
    }

    /// Empties the queue and restores every slot to the default value.
    pub fn reset(&mut self)
        requires
            old(self).wf(),
        ensures
            final(self).wf(),
            final(self)@ == Seq::<T>::empty(),
            final(self).slots() == old(self).slots(),
    {
        let mut i: usize = 0;
        while i < self.cap
            invariant
                i <= self.cap,
                self.cap == old(self).cap,
                self.cap > 0,
                self.buf@.len() == self.cap,
            decreases self.cap - i,
        {
            self.buf.set(i, T::default());
            i += 1;
        }
        self.front = 0;
        self.back = 0;
        self.len = 0;
        assert(self@ =~= Seq::<T>::empty());
    }

    /// Appends `value` at the back. A full queue drops its front element
    /// and returns it.
    pub fn push_back(&mut self, value: T) -> (r: Option<T>)
        requires
            old(self).wf(),
        ensures
            final(self).wf(),
            final(self).slots() == old(self).slots(),
            old(self)@.len() == old(self).slots() ==> r == Some(old(self)@[0]) && final(self)@
                == old(self)@.skip(1).push(value),
            old(self)@.len() < old(self).slots() ==> r.is_none() && final(self)@ == old(self)@.push(value),
    {
        let mut value = value;
        let ghost pushed = value;
        let evicted = if self.len == self.cap {
            self.front = if self.front + 1 == self.cap {
                0
            } else {
                self.front + 1
            };
            core::mem::swap(&mut self.buf[self.back], &mut value);
            Some(value)
        } else {
            self.buf.set(self.back, value);
            self.len += 1;
            None
        };
        self.back = if self.back + 1 == self.cap {
            0
        } else {
            self.back + 1
        };
        proof {
            if old(self).len == old(self).cap {
                assert(self@ =~= old(self)@.skip(1).push(pushed));
            } else {
                assert(self@ =~= old(self)@.push(pushed));
            }
        }
        evicted
    }

    /// Removes and returns the back element.
    pub fn pop_back(&mut self) -> (r: Option<T>)
        requires
            old(self).wf(),
        ensures
            final(self).wf(),
            final(self).slots() == old(self).slots(),
            old(self)@.len() == 0 ==> r.is_none() && final(self)@ == old(self)@,
            old(self)@.len() > 0 ==> r == Some(old(self)@.last()) && final(self)@ == old(self)@.drop_last(),
    {
        if self.len == 0 {
            return None;
        }
        self.back = if self.back == 0 {
            self.cap - 1
        } else {
            self.back - 1
        };
        self.len -= 1;
        let mut value = T::default();
        core::mem::swap(&mut self.buf[self.back], &mut value);
        assert(self@ =~= old(self)@.drop_last());
        Some(value)
    }

    /// Removes and returns the front element.
    pub fn pop_front(&mut self) -> (r: Option<T>)
        requires
            old(self).wf(),
        ensures
            final(self).wf(),
            final(self).slots() == old(self).slots(),
            old(self)@.len() == 0 ==> r.is_none() && final(self)@ == old(self)@,
            old(self)@.len() > 0 ==> r == Some(old(self)@[0]) && final(self)@ == old(self)@.skip(1),
    {
        if self.len == 0 {
            return None;
        }
        let mut value = T::default();
        core::mem::swap(&mut self.buf[self.front], &mut value);
        self.front = if self.front + 1 == self.cap {
            0
        } else {
            self.front + 1
        };
        self.len -= 1;
        assert(self@ =~= old(self)@.skip(1));
        Some(value)
    }

    /// The front element.
    pub fn front(&self) -> (r: Option<&T>)
        requires
            self.wf(),
        ensures
            self@.len() == 0 ==> r.is_none(),
            self@.len() > 0 ==> r == Some(&self@[0]),
    {
        self.get(0)
    }

    /// The back element.
    pub fn back(&self) -> (r: Option<&T>)
        requires
            self.wf(),
        ensures
            self@.len() == 0 ==> r.is_none(),
            self@.len() > 0 ==> r == Some(&self@.last()),
    {
        if self.len == 0 {
            None
        } else {
            let idx = if self.back == 0 {
                self.cap - 1
            } else {
                self.back - 1
            };
            Some(&self.buf[idx])
        }
    }

    /// The element `i` places behind the front.
    pub fn get(&self, i: usize) -> (r: Option<&T>)
        requires
            self.wf(),
        ensures
            i >= self@.len() ==> r.is_none(),
            i < self@.len() ==> r == Some(&self@[i as int]),
    {
        if i >= self.len {
            None
        } else {
            let room = self.cap - self.front;
            let idx = if i < room {
                self.front + i
            } else {
                i - room
            };
            Some(&self.buf[idx])
        }
    }

    /// A mutable reference to the element `i` places behind the front.
    pub fn get_mut(&mut self, i: usize) -> (r: Option<&mut T>)
        requires
            old(self).wf(),
        ensures
            i >= old(self)@.len() ==> r.is_none() && final(self)@ == old(self)@ && final(self).wf()
                && final(self).slots() == old(self).slots(),
            i < old(self)@.len() ==> r.is_some() && *r.unwrap() == old(self)@[i as int] && final(self)@ == old(self)@.update(i as int, *final(r.unwrap())) && final(self).wf() && final(self).slots() == old(self).slots(),
    {
        if i >= self.len {
            None
        } else {
            let room = self.cap - self.front;
            let idx = if i < room {
                self.front + i
            } else {
                i - room
            };
            Some(&mut self.buf[idx])
        }
    }
    /// The queued elements, front first.
    pub fn iter(&self) -> (r: Vec<T>) where T: Copy
        requires
            self.wf(),
        ensures
            r@ == self@,
    {
        let mut out: Vec<T> = Vec::with_capacity(self.len);
        let mut i: usize = 0;
        while i < self.len
            invariant
                self.wf(),
                i <= self.len,
                out@.len() == i,
                forall|j: int| 0 <= j < i ==> out@[j] == self@[j],
            decreases self.len - i,
        {
            let room = self.cap - self.front;
            let at = if i < room {
                self.front + i
            } else {
                i - room
            };
            out.push(self.buf[at]);
            i += 1;
        }
        assert(out@ =~= self@);
        out
    }
}

} // verus!
