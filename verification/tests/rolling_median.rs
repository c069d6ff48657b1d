use ordered_float::OrderedFloat;
use rolling_stats::{Median, RollingMedian};

/// Order-preserving key of a float: all NaNs share the largest key, both
/// zeros share one key.
fn key(x: f64) -> i64 {
    if x.is_nan() {
        i64::MAX
    } else if x == 0.0 {
        0
    } else {
        let bits = x.to_bits() as i64;
        if bits < 0 {
            bits ^ i64::MAX
        } else {
            bits
        }
    }
}

/// The float that a key stands for.
fn val(k: i64) -> f64 {
    if k == i64::MAX {
        f64::NAN
    } else if k < 0 {
        f64::from_bits((k ^ i64::MAX) as u64)
    } else {
        f64::from_bits(k as u64)
    }
}

/// The median tracker over floats.
struct FloatMedian(RollingMedian);

impl FloatMedian {
    fn new(window_size: usize) -> Self {
        assert!(window_size <= usize::MAX / 128, "capacity overflow");
        FloatMedian(RollingMedian::new(window_size))
    }

    fn push(&mut self, value: f64) {
        self.0.push(key(value));
    }

    fn pop(&mut self, value: f64) -> bool {
        self.0.pop(key(value))
    }

    fn median(&mut self) -> Option<f64> {
        match self.0.median() {
            Some(Median::Single(k)) => Some(val(k)),
            Some(Median::Pair(a, b)) => Some((val(a) + val(b)) / 2.0),
            None => None,
        }
    }

    fn mark_for_removal(&mut self, value: OrderedFloat<f64>) -> bool {
        self.0.mark_for_removal(key(value.0))
    }

    fn len(&self) -> usize {
        self.0.len()
    }

    fn is_empty(&self) -> bool {
        self.0.is_empty()
    }

    fn reset(&mut self) {
        self.0.reset();
    }
}

#[test]
fn test_median_empty() {
    let mut median = FloatMedian::new(5);
    assert_eq!(median.median(), None);
}

#[test]
fn test_median_single_value() {
    let mut median = FloatMedian::new(5);
    median.push(42.0);
    assert_eq!(median.median(), Some(42.0));
}

#[test]
fn test_median_odd_number_of_values() {
    let mut median = FloatMedian::new(5);
    median.push(1.0);
    median.push(3.0);
    median.push(2.0);
    assert_eq!(median.median(), Some(2.0));
}

#[test]
fn test_median_even_number_of_values() {
    let mut median = FloatMedian::new(5);
    median.push(1.0);
    median.push(3.0);
    median.push(2.0);
    median.push(4.0);
    assert_eq!(median.median(), Some(2.5));
}

#[test]
fn test_median_window_sliding() {
    let mut median = FloatMedian::new(3);
    median.push(1.0);
    median.push(2.0);
    median.push(3.0);
    assert_eq!(median.median(), Some(2.0));

    median.pop(1.0);
    median.push(4.0);
    assert_eq!(median.median(), Some(3.0));

    median.pop(2.0);
    median.push(5.0);
    assert_eq!(median.median(), Some(4.0));
}

#[test]
fn test_median_with_duplicates() {
    let mut median = FloatMedian::new(5);
    median.push(1.0);
    median.push(2.0);
    median.push(2.0);
    median.push(3.0);
    median.push(4.0);
    assert_eq!(median.median(), Some(2.0));

    median.pop(1.0);
    median.push(5.0);
    assert_eq!(median.median(), Some(3.0));
}

#[test]
fn test_median_large_window() {
    let mut median = FloatMedian::new(100);
    for i in 0..100 {
        median.push(i as f64);
    }
    assert_eq!(median.median(), Some(49.5));

    median.pop(0.0);
    median.push(100.0);
    assert_eq!(median.median(), Some(50.5));
}

#[test]
fn test_median_all_same_values() {
    let mut median = FloatMedian::new(5);
    for _ in 0..5 {
        median.push(7.0);
    }
    assert_eq!(median.median(), Some(7.0));

    median.pop(7.0);
    median.push(7.0);
    assert_eq!(median.median(), Some(7.0));
}

#[test]
fn test_median_with_extreme_values() {
    let mut median = FloatMedian::new(3);
    median.push(1.0e-10);
    median.push(0.0);
    median.push(0.0);
    assert_eq!(median.median(), Some(0.0));
}

#[test]
fn test_median_with_negative_values() {
    let mut median = FloatMedian::new(5);
    median.push(-5.0);
    median.push(-3.0);
    median.push(-1.0);
    median.push(2.0);
    median.push(4.0);
    assert_eq!(median.median(), Some(-1.0));
}

#[test]
fn test_median_alternating_add_remove() {
    let mut median = FloatMedian::new(3);

    median.push(1.0);
    median.push(2.0);
    median.push(3.0);
    assert_eq!(median.median(), Some(2.0));

    median.pop(1.0);
    median.push(4.0); // Window: [2, 3, 4]
    assert_eq!(median.median(), Some(3.0));

    median.pop(2.0);
    median.push(5.0); // Window: [3, 4, 5]
    assert_eq!(median.median(), Some(4.0));

    median.pop(3.0);
    median.push(1.0); // Window: [4, 5, 1]
    assert_eq!(median.median(), Some(4.0));

    median.pop(4.0);
    median.push(2.0); // Window: [5, 1, 2]
    assert_eq!(median.median(), Some(2.0));
}

#[test]
fn test_median_with_capacity_one() {
    let mut median = FloatMedian::new(1);

    median.push(5.0);
    assert_eq!(median.median(), Some(5.0));

    median.pop(5.0);
    median.push(10.0);
    assert_eq!(median.median(), Some(10.0));

    median.pop(10.0);
    median.push(15.0);
    assert_eq!(median.median(), Some(15.0));
}

#[test]
fn test_median_reset() {
    let mut median = FloatMedian::new(5);

    median.push(1.0);
    median.push(2.0);
    median.push(3.0);
    assert_eq!(median.median(), Some(2.0));

    median.reset();
    assert_eq!(median.median(), None);
    assert_eq!(median.len(), 0);
    assert!(median.is_empty());

    median.push(10.0);
    median.push(20.0);
    assert_eq!(median.median(), Some(15.0));
}

#[test]
fn test_median_pop_nonexistent_value() {
    let mut median = FloatMedian::new(5);

    median.push(1.0);
    median.push(2.0);

    let result = median.pop(3.0);
    assert!(!result);
    assert_eq!(median.median(), Some(1.5));
    assert_eq!(median.len(), 2);
}

#[test]
fn test_median_multiple_pops() {
    let mut median = FloatMedian::new(5);

    median.push(1.0);
    median.push(2.0);
    median.push(3.0);
    median.push(4.0);
    median.push(5.0);

    assert!(median.pop(1.0));
    assert!(median.pop(3.0));
    assert!(median.pop(5.0));

    assert_eq!(median.median(), Some(3.0));
    assert_eq!(median.len(), 2);
}

#[test]
fn test_median_infinite_loop_prevention() {
    let mut median = FloatMedian::new(3);

    median.push(1.0);
    median.push(2.0);
    median.push(3.0);

    let _ = median.mark_for_removal(OrderedFloat(1.0));
    let _ = median.mark_for_removal(OrderedFloat(2.0));
    let _ = median.mark_for_removal(OrderedFloat(3.0));

    assert_eq!(median.median(), None);
}
