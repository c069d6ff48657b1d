//! Sliding-window statistics primitives: fixed-capacity buffers, a monotonic
//! queue for rolling extrema, a lazy-deletion median tracker, a frequency
//! bucketed mode tracker and an arena-backed order-statistics tree.

pub mod counts;
pub mod deque;
pub mod heap;
pub mod maximum;
pub mod minimum;
pub mod monotonic_queue;
pub mod order;
pub mod rb_tree;
pub mod ring_buffer;
pub mod rolling_median;
pub mod rolling_mode;
pub mod sorted;
pub mod window;

pub use deque::Deque;
pub use maximum::Maximum;
pub use minimum::Minimum;
pub use monotonic_queue::{Max, Min, MonotonicQueue, OrderPolicy};
pub use rb_tree::RbTree;
pub use rolling_median::{Median, RollingMedian};
pub use rolling_mode::RollingMode;
pub use ring_buffer::RingBuffer;
pub use window::Window;
