use rolling_stats::RollingMode;

/// Order-preserving key of a float: all NaNs share the largest key, both
/// zeros share one key.
fn key(x: f64) -> i64 {
    if x.is_nan() {
        i64::MAX
    } else if x == 0.0 {
        0
    } else {
        let bits = x.to_bits() as i64;
        if bits < 0 {
            bits ^ i64::MAX
        } else {
            bits
        }
    }
}

/// The float that a key stands for.
fn val(k: i64) -> f64 {
    if k == i64::MAX {
        f64::NAN
    } else if k < 0 {
        f64::from_bits((k ^ i64::MAX) as u64)
    } else {
        f64::from_bits(k as u64)
    }
}

/// The mode tracker over floats.
struct FloatMode(RollingMode);

impl FloatMode {
    fn new() -> Self {
        FloatMode(RollingMode::new())
    }

    fn push(&mut self, value: f64) {
        self.0.push(key(value));
    }

    fn pop(&mut self, value: f64) {
        self.0.pop(key(value));
    }

    fn mode(&self) -> Option<f64> {
        self.0.mode().map(val)
    }

    fn modes(&self) -> Vec<f64> {
        self.0.modes().into_iter().map(val).collect()
    }

    fn reset(&mut self) {
        self.0.reset();
    }

    fn max_frequency(&self) -> usize {
        self.0.max_frequency()
    }

    fn frequency_of(&self, value: f64) -> usize {
        self.0.frequency_of(key(value))
    }

    fn unique_count(&self) -> usize {
        self.0.unique_count()
    }

    fn is_empty(&self) -> bool {
        self.0.is_empty()
    }
}

#[test]
fn test_empty() {
    let tracker = FloatMode::new();
    assert_eq!(tracker.mode(), None);
    assert_eq!(tracker.modes(), Vec::<f64>::new());
    assert_eq!(tracker.max_frequency(), 0);
    assert_eq!(tracker.unique_count(), 0);
    assert!(tracker.is_empty());
}

#[test]
fn test_single_value() {
    let mut tracker = FloatMode::new();
    tracker.push(42.0);

    assert_eq!(tracker.mode(), Some(42.0));
    assert_eq!(tracker.modes(), vec![42.0]);
    assert_eq!(tracker.max_frequency(), 1);
    assert_eq!(tracker.unique_count(), 1);
    assert!(!tracker.is_empty());
}

#[test]
fn test_multiple_values() {
    let mut tracker = FloatMode::new();
    tracker.push(1.5);
    tracker.push(2.5);
    tracker.push(1.5);
    tracker.push(3.5);

    assert_eq!(tracker.mode(), Some(1.5));
    assert_eq!(tracker.modes(), vec![1.5]);
    assert_eq!(tracker.max_frequency(), 2);
    assert_eq!(tracker.unique_count(), 3);
    assert_eq!(tracker.frequency_of(1.5), 2);
    assert_eq!(tracker.frequency_of(2.5), 1);
    assert_eq!(tracker.frequency_of(3.5), 1);
    assert_eq!(tracker.frequency_of(4.5), 0);
}

#[test]
fn test_numerical_order_tie_breaking() {
    let mut tracker = FloatMode::new();

    tracker.push(3.0);
    tracker.push(1.0);
    tracker.push(2.0);

    assert_eq!(tracker.mode(), Some(1.0));

    tracker.push(2.0);
    tracker.push(1.0);
    tracker.push(3.0);

    assert_eq!(tracker.mode(), Some(1.0));

    tracker.pop(1.0);

    assert_eq!(tracker.mode(), Some(2.0));
}

#[test]
fn rolling_mode_test_reset() {
    let mut tracker = FloatMode::new();
    tracker.push(1.5);
    tracker.push(2.5);
    tracker.push(1.5);

    assert_eq!(tracker.mode(), Some(1.5));
    assert_eq!(tracker.max_frequency(), 2);

    tracker.reset();

    assert_eq!(tracker.mode(), None);
    assert_eq!(tracker.modes(), Vec::<f64>::new());
    assert_eq!(tracker.max_frequency(), 0);
    assert_eq!(tracker.unique_count(), 0);
    assert!(tracker.is_empty());
}

#[test]
fn rolling_mode_test_nan_handling() {
    let mut tracker = FloatMode::new();
    tracker.push(1.0);
    tracker.push(f64::NAN);
    tracker.push(f64::NAN);

    assert!(tracker.mode().unwrap().is_nan());
    assert_eq!(tracker.max_frequency(), 2);

    tracker.pop(f64::NAN);

    assert_eq!(tracker.mode(), Some(1.0));
    assert_eq!(tracker.max_frequency(), 1);
}

#[test]
fn test_rolling_window_scenario() {
    let mut tracker = FloatMode::new();
    let inputs = [1.0, 2.0, 1.0, 2.0, 3.0, 3.0, 3.0, 2.0, 2.0, 1.0];

    let mut window = Vec::new();

    for &value in inputs.iter() {
        window.push(value);
        tracker.push(value);

        if window.len() > 3 {
            let oldest = window.remove(0);
            tracker.pop(oldest);
        }
    }

    assert_eq!(tracker.mode(), Some(2.0));
}

#[test]
fn test_multiple_ties() {
    let mut tracker = FloatMode::new();

    tracker.push(3.0);
    tracker.push(1.0);
    tracker.push(2.0);

    assert_eq!(tracker.mode(), Some(1.0));
    assert_eq!(tracker.modes().len(), 3);

    tracker.pop(1.0);

    assert_eq!(tracker.mode(), Some(2.0));
    assert_eq!(tracker.modes().len(), 2);
}

#[test]
fn test_special_floating_point_values() {
    let mut tracker = FloatMode::new();

    tracker.push(10.0);
    tracker.push(20.0);
    assert_eq!(tracker.mode(), Some(10.0));

    tracker.push(20.0);
    assert_eq!(tracker.mode(), Some(20.0));

    tracker.reset();
    tracker.push(0.0);
    tracker.push(-0.0);

    assert_eq!(tracker.unique_count(), 1);
    assert_eq!(tracker.frequency_of(0.0), 2);
    assert_eq!(tracker.frequency_of(-0.0), 2);

    tracker.reset();
    for i in 0..5 {
        tracker.push(i as f64);
    }
    assert_eq!(tracker.mode(), Some(0.0));

    tracker.push(3.0);
    assert_eq!(tracker.mode(), Some(3.0));
}

#[test]
fn test_removing_nonexistent_value() {
    let mut tracker = FloatMode::new();

    tracker.push(1.0);
    tracker.push(2.0);

    tracker.pop(3.0);

    assert_eq!(tracker.unique_count(), 2);
    assert_eq!(tracker.mode(), Some(1.0));
}

#[test]
fn test_repeated_values() {
    let mut tracker = FloatMode::new();

    for _ in 0..100 {
        tracker.push(42.0);
    }

    assert_eq!(tracker.mode(), Some(42.0));
    assert_eq!(tracker.max_frequency(), 100);

    for i in 0..100 {
        tracker.pop(42.0);
        assert_eq!(tracker.max_frequency(), 100 - i - 1);
    }

    assert_eq!(tracker.mode(), None);
    assert!(tracker.is_empty());
}

#[test]
fn test_reset_behavior() {
    let mut tracker = FloatMode::new();

    tracker.push(1.0);
    tracker.push(2.0);
    tracker.push(1.0);

    assert_eq!(tracker.mode(), Some(1.0));

    tracker.reset();

    assert!(tracker.is_empty());
    assert_eq!(tracker.mode(), None);
    assert_eq!(tracker.max_frequency(), 0);
    assert_eq!(tracker.unique_count(), 0);
    assert_eq!(tracker.frequency_of(1.0), 0);

    tracker.push(3.0);
    assert_eq!(tracker.mode(), Some(3.0));
}

#[test]
fn test_pushing_many_unique_values() {
    let mut tracker = FloatMode::new();

    for i in 0..1000 {
        tracker.push(i as f64);
    }

    assert_eq!(tracker.max_frequency(), 1);
    assert_eq!(tracker.unique_count(), 1000);

    assert_eq!(tracker.mode(), Some(0.0));

    tracker.push(42.0);
    assert_eq!(tracker.mode(), Some(42.0));
    assert_eq!(tracker.max_frequency(), 2);
}
