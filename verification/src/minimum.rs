//! The minimum of the last `period` values of a stream.

use crate::monotonic_queue::{lawful, Min, MonotonicQueue, OrderPolicy};
use crate::ring_buffer::last_n;
use vstd::prelude::*;

verus! {

/// Rolling minimum over a fixed window.
pub struct Minimum<T>(MonotonicQueue<T, Min>);

impl<T: PartialOrd + Copy + Default> Minimum<T> {
    /// All values pushed since construction or the last reset.
    pub closed spec fn history(&self) -> Seq<T> {
        self.0.history()
    }

    /// The values in the window: the last `period` pushes.
    pub open spec fn window(&self) -> Seq<T> {
        last_n(self.history(), self.period())
    }

    /// The window length.
    pub closed spec fn period(&self) -> int {
        self.0.span()
    }

    /// Representation invariant.
    pub closed spec fn wf(&self) -> bool {
        self.0.wf()
    }

    /// Creates a tracker over a window of `period` values.
    pub fn new(period: usize) -> (r: Self)
        requires
            period > 0,
        ensures
            r.wf(),
            r.period() == period,
            r.history() == Seq::<T>::empty(),
    {
        Minimum(MonotonicQueue::new(period))
    }

    /// Pushes `value`, the newest element of the window.
    pub fn push(&mut self, value: T)
        requires
            old(self).wf(),
            old(self).history().len() < usize::MAX,
        ensures
            final(self).wf(),
            final(self).period() == old(self).period(),
            final(self).history() == old(self).history().push(value),
    {
        self.0.push(value)
    }

    /// How many values have been pushed since construction or the last
    /// reset.
    pub fn count(&self) -> (r: usize)
        requires
            self.wf(),
        ensures
            r == self.history().len(),
    {
        self.0.count()
    }

    /// The smallest value of the window, once the window is full: a value of
    /// the window than which, under a lawful order, none is smaller. Before
    /// `period` values have been pushed there is no result.
    pub fn get(&self) -> (r: Option<T>)
        requires
            self.wf(),
        ensures
            self.history().len() < self.period() ==> r.is_none(),
            self.history().len() >= self.period() ==> r.is_some() && self.window().contains(
                r.unwrap(),
            ),
            lawful::<T, Min>() && r.is_some() ==> forall|i: int|
                0 <= i < self.window().len() ==> <Min as OrderPolicy<T>>::dominated(
                    #[trigger] self.window()[i],
                    r.unwrap(),
                ),
    {
        proof {
            self.0.lemma_span();
        }
        if !self.0.has_complete_window() {
            return None;
        }
        self.0.front()
    }

    /// Forgets all pushes.
    pub fn reset(&mut self)
        requires
            old(self).wf(),
        ensures
            final(self).wf(),
            final(self).period() == old(self).period(),
            final(self).history() == Seq::<T>::empty(),
    {
        self.0.reset();
    }
}

} // verus!
