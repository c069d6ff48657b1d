use rolling_stats::RbTree;

/// Order-preserving key of a float: all NaNs share the largest key, both
/// zeros share one key.
fn key(x: f64) -> i64 {
    if x.is_nan() {
        i64::MAX
    } else if x == 0.0 {
        0
    } else {
        let bits = x.to_bits() as i64;
        if bits < 0 {
            bits ^ i64::MAX
        } else {
            bits
        }
    }
}

/// The float that a key stands for.
fn val(k: i64) -> f64 {
    if k == i64::MAX {
        f64::NAN
    } else if k < 0 {
        f64::from_bits((k ^ i64::MAX) as u64)
    } else {
        f64::from_bits(k as u64)
    }
}

/// What the tests read of a node.
struct NodeInfo {
    count: usize,
}

/// The order-statistics tree over floats.
struct FloatTree(RbTree);

impl FloatTree {
    fn new(capacity: usize) -> Self {
        assert!(capacity > 0, "Capacity must be greater than 0");
        assert!(capacity <= usize::MAX / 2, "Capacity too large - risk of index overflow");
        FloatTree(RbTree::new(capacity))
    }

    fn len(&self) -> usize {
        self.0.len()
    }

    fn total_count(&self) -> usize {
        self.0.total_count()
    }

    fn capacity(&self) -> usize {
        self.0.capacity()
    }

    fn is_empty(&self) -> bool {
        self.0.is_empty()
    }

    fn remaining_capacity(&self) -> usize {
        self.0.remaining_capacity()
    }

    fn insert(&mut self, value: f64) -> Option<usize> {
        assert!(self.0.total_count() < usize::MAX);
        self.0.insert(key(value))
    }

    fn remove(&mut self, value: f64) -> Option<f64> {
        self.0.remove(key(value)).map(|_| value)
    }

    fn min(&self) -> Option<f64> {
        self.0.min().map(val)
    }

    fn max(&self) -> Option<f64> {
        self.0.max().map(val)
    }

    fn find_kth_element(&self, k: usize) -> Option<f64> {
        self.0.find_kth_element(k).map(val)
    }

    fn quantile(&self, q: f64) -> Option<f64> {
        let total = self.0.total_count();
        if total == 0 {
            return None;
        }
        let clamped = q.clamp(0.0, 1.0);
        let target = if clamped >= 1.0 {
            total - 1
        } else if clamped <= 0.0 {
            0
        } else {
            (clamped * (total - 1) as f64).floor() as usize
        };
        self.find_kth_element(target)
    }

    fn percentile(&self, p: f64) -> Option<f64> {
        self.quantile(p / 100.0)
    }

    fn median(&self) -> Option<f64> {
        self.0.median().map(val)
    }

    fn reset(&mut self) {
        self.0.reset();
    }

    fn find_node(&self, value: f64) -> Option<usize> {
        self.0.find_node(key(value))
    }

    fn node_at(&self, idx: usize) -> NodeInfo {
        NodeInfo { count: self.0.node_count(idx) }
    }
}

#[test]
fn test_rbtree_creation() {
    let tree = FloatTree::new(10);
    assert_eq!(tree.len(), 0);
    assert_eq!(tree.total_count(), 0);
    assert_eq!(tree.capacity(), 10);
    assert_eq!(tree.remaining_capacity(), 10);
    assert!(tree.is_empty());
    assert!(tree.min().is_none());
    assert!(tree.max().is_none());
    assert!(tree.median().is_none());
}

#[test]
#[should_panic(expected = "Capacity must be greater than 0")]
fn test_rbtree_zero_capacity() {
    FloatTree::new(0);
}

#[test]
fn test_rbtree_single_element() {
    let mut tree = FloatTree::new(5);

    assert!(tree.insert(42.0).is_some());
    assert_eq!(tree.len(), 1);
    assert_eq!(tree.total_count(), 1);
    assert_eq!(tree.remaining_capacity(), 4);
    assert!(!tree.is_empty());

    assert_eq!(tree.min(), Some(42.0));
    assert_eq!(tree.max(), Some(42.0));
    assert_eq!(tree.median(), Some(42.0));
    assert_eq!(tree.quantile(0.0), Some(42.0));
    assert_eq!(tree.quantile(0.5), Some(42.0));
    assert_eq!(tree.quantile(1.0), Some(42.0));

    assert_eq!(tree.remove(42.0), Some(42.0));
    assert_eq!(tree.len(), 0);
    assert_eq!(tree.total_count(), 0);
    assert!(tree.is_empty());
    assert!(tree.min().is_none());
    assert!(tree.max().is_none());
}

#[test]
fn test_rbtree_basic_insert_remove() {
    let mut tree = FloatTree::new(5);

    assert!(tree.insert(5.0).is_some());
    assert!(tree.insert(3.0).is_some());
    assert!(tree.insert(7.0).is_some());
    assert!(tree.insert(1.0).is_some());
    assert!(tree.insert(9.0).is_some());

    assert_eq!(tree.len(), 5);
    assert_eq!(tree.total_count(), 5);
    assert_eq!(tree.remaining_capacity(), 0);

    assert_eq!(tree.min(), Some(1.0));
    assert_eq!(tree.max(), Some(9.0));

    assert_eq!(tree.remove(3.0), Some(3.0));
    assert_eq!(tree.len(), 4);
    assert_eq!(tree.remove(1.0), Some(1.0));
    assert_eq!(tree.len(), 3);

    assert_eq!(tree.min(), Some(5.0));
    assert_eq!(tree.max(), Some(9.0));

    assert_eq!(tree.remove(100.0), None);
    assert_eq!(tree.len(), 3);
}

#[test]
fn test_rbtree_duplicates() {
    let mut tree = FloatTree::new(5);

    assert!(tree.insert(5.0).is_some());
    assert!(tree.insert(5.0).is_some());
    assert!(tree.insert(5.0).is_some());

    assert_eq!(tree.len(), 1);
    assert_eq!(tree.total_count(), 3);

    assert_eq!(tree.remove(5.0), Some(5.0));
    assert_eq!(tree.len(), 1);
    assert_eq!(tree.total_count(), 2);

    assert_eq!(tree.remove(5.0), Some(5.0));
    assert_eq!(tree.len(), 1);
    assert_eq!(tree.total_count(), 1);

    assert_eq!(tree.remove(5.0), Some(5.0));
    assert_eq!(tree.len(), 0);
    assert_eq!(tree.total_count(), 0);
    assert!(tree.is_empty());
}

#[test]
fn test_rbtree_capacity_limits() {
    let mut tree = FloatTree::new(3);

    assert!(tree.insert(1.0).is_some());
    assert!(tree.insert(2.0).is_some());
    assert!(tree.insert(3.0).is_some());
    assert_eq!(tree.remaining_capacity(), 0);

    assert!(tree.insert(4.0).is_none());
    assert_eq!(tree.len(), 3);

    assert!(tree.insert(2.0).is_some());
    assert_eq!(tree.len(), 3);
    assert_eq!(tree.total_count(), 4);
}

#[test]
fn test_rbtree_quantiles_basic() {
    let mut tree = FloatTree::new(10);

    for i in 1..=5 {
        tree.insert(i as f64).unwrap();
    }

    assert_eq!(tree.quantile(0.0), Some(1.0));
    assert_eq!(tree.quantile(1.0), Some(5.0));
    assert_eq!(tree.quantile(0.25), Some(2.0));
    assert_eq!(tree.quantile(0.5), Some(3.0));
    assert_eq!(tree.quantile(0.75), Some(4.0));
    assert_eq!(tree.median(), Some(3.0));
    assert_eq!(tree.percentile(50.0), Some(3.0));
}

#[test]
fn test_rbtree_quantiles_with_duplicates() {
    let mut tree = FloatTree::new(10);

    tree.insert(1.0).unwrap();
    tree.insert(2.0).unwrap();
    tree.insert(2.0).unwrap();
    tree.insert(2.0).unwrap();
    tree.insert(5.0).unwrap();

    assert_eq!(tree.total_count(), 5);
    assert_eq!(tree.quantile(0.0), Some(1.0));
    assert_eq!(tree.quantile(0.5), Some(2.0));
    assert_eq!(tree.quantile(1.0), Some(5.0));
}

#[test]
fn test_rbtree_quantiles_edge_cases() {
    let mut tree = FloatTree::new(10);

    assert!(tree.quantile(0.5).is_none());
    assert!(tree.median().is_none());

    tree.insert(42.0).unwrap();
    assert_eq!(tree.quantile(0.0), Some(42.0));
    assert_eq!(tree.quantile(0.5), Some(42.0));
    assert_eq!(tree.quantile(1.0), Some(42.0));
    assert_eq!(tree.quantile(-0.5), Some(42.0));
    assert_eq!(tree.quantile(1.5), Some(42.0));
}

#[test]
fn test_rbtree_quantiles_even_count() {
    let mut tree = FloatTree::new(10);

    for i in 1..=4 {
        tree.insert(i as f64).unwrap();
    }

    assert_eq!(tree.total_count(), 4);
    assert_eq!(tree.quantile(0.5), Some(2.0));
}

#[test]
fn test_rbtree_memory_reuse() {
    let mut tree = FloatTree::new(3);

    tree.insert(1.0).unwrap();
    tree.insert(2.0).unwrap();
    tree.insert(3.0).unwrap();
    assert_eq!(tree.remaining_capacity(), 0);

    tree.remove(1.0).unwrap();
    tree.remove(2.0).unwrap();
    tree.remove(3.0).unwrap();
    assert_eq!(tree.remaining_capacity(), 3);

    tree.insert(4.0).unwrap();
    tree.insert(5.0).unwrap();
    tree.insert(6.0).unwrap();
    assert_eq!(tree.len(), 3);
    assert_eq!(tree.remaining_capacity(), 0);
}

#[test]
fn test_rbtree_sliding_window_basic() {
    let mut tree = FloatTree::new(3);

    tree.insert(1.0).unwrap();
    tree.insert(2.0).unwrap();
    tree.insert(3.0).unwrap();

    tree.remove(1.0).unwrap();
    tree.insert(4.0).unwrap();

    assert_eq!(tree.len(), 3);
    assert_eq!(tree.min(), Some(2.0));
    assert_eq!(tree.max(), Some(4.0));
}

#[test]
fn test_rbtree_sliding_window_stress() {
    let mut tree = FloatTree::new(5);
    let inputs = [10.0, 10.5, 11.2, 10.9, 11.5, 11.9, 12.3, 12.1, 11.8, 12.5];

    for (i, &value) in inputs.iter().enumerate() {
        if i >= 5 {
            let removed = tree.remove(inputs[i - 5]);
            assert!(
                removed.is_some(),
                "Failed to remove {} at step {}",
                inputs[i - 5],
                i
            );
        }

        let inserted = tree.insert(value);
        assert!(
            inserted.is_some(),
            "Failed to insert {} at step {}",
            value,
            i
        );

        assert!(tree.len() <= 5, "Tree exceeded capacity at step {}", i);

        assert!(tree.min().is_some());
        assert!(tree.max().is_some());
        if tree.total_count() > 0 {
            assert!(tree.median().is_some());
        }
    }
}

#[test]
fn test_rbtree_floating_point_precision() {
    let mut tree = FloatTree::new(10);

    let val1 = 0.1 + 0.2;
    let val2 = 0.3;

    tree.insert(val1).unwrap();
    tree.insert(val2).unwrap();

    assert_eq!(tree.len(), 2);

    assert_eq!(tree.remove(val1), Some(val1));
    assert_eq!(tree.len(), 1);
}

#[test]
fn test_rbtree_infinity_values() {
    let mut tree = FloatTree::new(10);

    tree.insert(1.0).unwrap();
    tree.insert(f64::INFINITY).unwrap();
    tree.insert(f64::NEG_INFINITY).unwrap();
    tree.insert(2.0).unwrap();

    assert_eq!(tree.len(), 4);
    assert_eq!(tree.min(), Some(f64::NEG_INFINITY));
    assert_eq!(tree.max(), Some(f64::INFINITY));
}

#[test]
fn test_rbtree_large_dataset() {
    let mut tree = FloatTree::new(1000);

    for i in 0..500 {
        tree.insert(i as f64).unwrap();
    }

    assert_eq!(tree.len(), 500);
    assert_eq!(tree.total_count(), 500);
    assert_eq!(tree.min(), Some(0.0));
    assert_eq!(tree.max(), Some(499.0));
    assert_eq!(tree.median(), Some(249.0));

    for i in (0..500).step_by(2) {
        tree.remove(i as f64).unwrap();
    }

    assert_eq!(tree.len(), 250);
    assert_eq!(tree.total_count(), 250);
}

#[test]
fn test_rbtree_reset_functionality() {
    let mut tree = FloatTree::new(10);

    for i in 1..=5 {
        tree.insert(i as f64).unwrap();
    }
    assert_eq!(tree.len(), 5);

    tree.reset();
    assert_eq!(tree.len(), 0);
    assert_eq!(tree.total_count(), 0);
    assert_eq!(tree.remaining_capacity(), 10);
    assert!(tree.is_empty());

    tree.insert(42.0).unwrap();
    assert_eq!(tree.len(), 1);
}

#[test]
fn test_rbtree_complex_removal_patterns() {
    let mut tree = FloatTree::new(10);

    let values = [5.0, 2.0, 8.0, 1.0, 3.0, 7.0, 9.0];
    for &val in &values {
        tree.insert(val).unwrap();
    }

    tree.remove(1.0).unwrap();
    tree.remove(5.0).unwrap();
    tree.remove(8.0).unwrap();

    assert_eq!(tree.len(), 4);
    assert!(tree.min().is_some());
    assert!(tree.max().is_some());
    assert!(tree.median().is_some());
}

#[test]
fn test_rbtree_removal_edge_cases() {
    let mut tree = FloatTree::new(10);

    tree.insert(5.0).unwrap();

    tree.remove(5.0).unwrap();
    assert!(tree.is_empty());

    for i in 1..=7 {
        tree.insert(i as f64).unwrap();
    }

    tree.remove(4.0).unwrap();
    assert_eq!(tree.len(), 6);

    tree.remove(1.0).unwrap();
    assert_eq!(tree.len(), 5);

    tree.remove(7.0).unwrap();
    assert_eq!(tree.len(), 4);
}

#[test]
fn test_rbtree_error_conditions() {
    let mut tree = FloatTree::new(2);

    assert_eq!(tree.remove(42.0), None);

    tree.insert(1.0).unwrap();
    tree.insert(2.0).unwrap();

    assert!(tree.insert(3.0).is_none());

    assert!(tree.insert(1.0).is_some());
}

#[test]
fn test_rbtree_sequential_insert_remove() {
    let mut tree = FloatTree::new(100);

    for i in 0..50 {
        tree.insert(i as f64).unwrap();
    }

    for i in 0..25 {
        tree.remove(i as f64).unwrap();
    }

    assert_eq!(tree.len(), 25);
    assert_eq!(tree.min(), Some(25.0));
    assert_eq!(tree.max(), Some(49.0));
}

#[test]
fn test_rbtree_reverse_order_insertion() {
    let mut tree = FloatTree::new(10);

    for i in (1..=5).rev() {
        tree.insert(i as f64).unwrap();
    }

    assert_eq!(tree.len(), 5);
    assert_eq!(tree.min(), Some(1.0));
    assert_eq!(tree.max(), Some(5.0));
    assert_eq!(tree.median(), Some(3.0));
}

#[test]
fn test_rbtree_alternating_insert_remove() {
    let mut tree = FloatTree::new(10);

    tree.insert(5.0).unwrap();
    tree.insert(3.0).unwrap();
    tree.remove(5.0).unwrap();
    tree.insert(7.0).unwrap();
    tree.remove(3.0).unwrap();
    tree.insert(1.0).unwrap();

    assert_eq!(tree.len(), 2);
    assert!(tree.min().is_some());
    assert!(tree.max().is_some());
}

#[test]
fn test_rbtree_duplicate_heavy_workload() {
    let mut tree = FloatTree::new(5);

    for _ in 0..20 {
        tree.insert(1.0).unwrap();
    }

    assert_eq!(tree.len(), 1);
    assert_eq!(tree.total_count(), 20);

    for _ in 0..15 {
        tree.remove(1.0).unwrap();
    }

    assert_eq!(tree.len(), 1);
    assert_eq!(tree.total_count(), 5);
}

#[test]
fn test_rbtree_find_kth_edge_cases() {
    let mut tree = FloatTree::new(5);

    tree.insert(1.0).unwrap();
    tree.insert(2.0).unwrap();
    tree.insert(3.0).unwrap();

    assert_eq!(tree.quantile(0.0), Some(1.0));
    assert_eq!(tree.quantile(1.0), Some(3.0));

    assert!(tree.find_kth_element(10).is_none());
}

#[test]
fn test_rbtree_quantile_precision() {
    let mut tree = FloatTree::new(10);

    for i in 0..10 {
        tree.insert(i as f64).unwrap();
    }

    assert_eq!(tree.quantile(0.1), Some(0.0));
    assert_eq!(tree.quantile(0.9), Some(8.0));
    assert_eq!(tree.quantile(0.55), Some(4.0));
}

#[test]
fn test_rbtree_tree_balance_after_operations() {
    let mut tree = FloatTree::new(100);

    for i in 0..50 {
        tree.insert(i as f64).unwrap();
    }

    for i in (0..50).step_by(3) {
        tree.remove(i as f64).unwrap();
    }

    for i in 50..75 {
        tree.insert(i as f64).unwrap();
    }

    assert!(tree.min().is_some());
    assert!(tree.max().is_some());
    assert!(tree.median().is_some());
}

#[test]
fn test_rbtree_extreme_values() {
    let mut tree = FloatTree::new(10);

    tree.insert(f64::MIN).unwrap();
    tree.insert(f64::MAX).unwrap();
    tree.insert(0.0).unwrap();
    tree.insert(-0.0).unwrap();

    assert_eq!(tree.min(), Some(f64::MIN));
    assert_eq!(tree.max(), Some(f64::MAX));
}

#[test]
fn test_rbtree_capacity_one_debug() {
    let mut tree = FloatTree::new(1);

    assert!(tree.insert(42.0).is_some());
    assert_eq!(tree.len(), 1);
    assert_eq!(tree.total_count(), 1);

    assert!(tree.insert(42.0).is_some());
    assert_eq!(tree.len(), 1);
    assert_eq!(tree.total_count(), 2);

    let node_idx = tree.find_node(42.0).unwrap();
    assert_eq!(tree.node_at(node_idx).count, 2);

    tree.remove(42.0).unwrap();
    assert_eq!(tree.total_count(), 1);

    if let Some(node_idx) = tree.find_node(42.0) {
        assert_eq!(tree.node_at(node_idx).count, 1);
        assert_eq!(tree.len(), 1);
    } else {
        panic!("Node should still exist after first removal");
    }

    tree.remove(42.0).unwrap();
    assert_eq!(tree.len(), 0);
    assert_eq!(tree.total_count(), 0);
    assert!(tree.is_empty());
}

#[test]
fn test_rbtree_capacity_one() {
    let mut tree = FloatTree::new(1);

    assert!(tree.insert(42.0).is_some());
    assert_eq!(tree.len(), 1);
    assert_eq!(tree.remaining_capacity(), 0);

    assert!(tree.insert(43.0).is_none());
    assert!(tree.insert(42.0).is_some());
    assert_eq!(tree.total_count(), 2);

    tree.remove(42.0).unwrap();
    assert_eq!(tree.total_count(), 1);
    assert_eq!(tree.len(), 1);

    tree.remove(42.0).unwrap();
    assert!(tree.is_empty());
    assert_eq!(tree.len(), 0);
}

#[test]
fn test_rbtree_mixed_duplicate_operations() {
    let mut tree = FloatTree::new(3);

    tree.insert(1.0).unwrap();
    tree.insert(1.0).unwrap();
    tree.insert(2.0).unwrap();
    tree.insert(2.0).unwrap();
    tree.insert(3.0).unwrap();

    assert_eq!(tree.len(), 3);
    assert_eq!(tree.total_count(), 5);

    tree.remove(1.0).unwrap();
    assert_eq!(tree.total_count(), 4);

    tree.remove(2.0).unwrap();
    tree.remove(2.0).unwrap();
    assert_eq!(tree.len(), 2);
    assert_eq!(tree.total_count(), 2);
}

#[test]
fn test_quantile_precision_large_datasets() {
    let mut tree = FloatTree::new(1000);

    for i in 0..1000 {
        tree.insert(i as f64).unwrap();
    }

    assert_eq!(tree.quantile(0.5), Some(499.0));
    assert_eq!(tree.quantile(0.999), Some(998.0));
    assert_eq!(tree.quantile(0.001), Some(0.0));
}

#[test]
fn test_deletion_stress() {
    let mut tree = FloatTree::new(1000);

    for i in 0..500 {
        tree.insert(i as f64).unwrap();
    }

    for i in (0..500).step_by(2) {
        tree.remove(i as f64).unwrap();
    }

    assert_eq!(tree.len(), 250);

    for i in (1..500).step_by(2) {
        assert!(tree.find_node(i as f64).is_some());
    }
}

#[test]
fn rb_tree_test_nan_handling() {
    let mut tree = FloatTree::new(10);

    tree.insert(1.0).unwrap();
    tree.insert(f64::NAN).unwrap();
    tree.insert(2.0).unwrap();

    assert_eq!(tree.len(), 3);
    assert!(tree.min().is_some());
    assert!(tree.max().is_some());
}

#[test]
fn test_complex_deletion_scenarios() {
    let mut tree = FloatTree::new(50);

    let values = vec![
        50.0, 25.0, 75.0, 12.0, 37.0, 62.0, 87.0, 6.0, 18.0, 31.0, 43.0,
    ];

    for &val in &values {
        tree.insert(val).unwrap();
    }

    tree.remove(25.0).unwrap();
    tree.remove(50.0).unwrap();
    tree.remove(75.0).unwrap();

    assert_eq!(tree.len(), 8);
    assert!(tree.min().is_some());
    assert!(tree.max().is_some());
}

#[test]
fn test_rb_tree_invariants_stress() {
    let mut tree = FloatTree::new(100);

    let operations = vec![
        (true, 50.0),
        (true, 25.0),
        (true, 75.0),
        (true, 12.0),
        (true, 37.0),
        (false, 25.0),
        (true, 100.0),
        (false, 50.0),
        (true, 1.0),
        (false, 12.0),
        (true, 200.0),
        (true, 150.0),
        (false, 75.0),
        (true, 300.0),
        (false, 1.0),
    ];

    for (is_insert, value) in operations {
        if is_insert {
            tree.insert(value);
        } else {
            tree.remove(value);
        }
    }

    assert!(tree.len() <= tree.capacity());
    if !tree.is_empty() {
        assert!(tree.min().is_some());
        assert!(tree.max().is_some());
    }
}

#[test]
fn test_subtree_count_consistency() {
    let mut tree = FloatTree::new(20);

    for i in 0..10 {
        tree.insert(i as f64).unwrap();
        tree.insert(i as f64).unwrap();
    }

    assert_eq!(tree.len(), 10);
    assert_eq!(tree.total_count(), 20);

    for i in 0..5 {
        tree.remove(i as f64).unwrap();
    }

    assert_eq!(tree.len(), 10);
    assert_eq!(tree.total_count(), 15);

    for i in 0..5 {
        tree.remove(i as f64).unwrap();
    }

    assert_eq!(tree.len(), 5);
    assert_eq!(tree.total_count(), 10);
}

#[test]
fn test_edge_case_rotations() {
    let mut tree = FloatTree::new(10);

    for i in 1..=7 {
        tree.insert(i as f64).unwrap();
    }

    assert_eq!(tree.len(), 7);
    assert_eq!(tree.min(), Some(1.0));
    assert_eq!(tree.max(), Some(7.0));
    assert_eq!(tree.median(), Some(4.0));

    tree.reset();
    for i in (1..=7).rev() {
        tree.insert(i as f64).unwrap();
    }

    assert_eq!(tree.len(), 7);
    assert_eq!(tree.min(), Some(1.0));
    assert_eq!(tree.max(), Some(7.0));
    assert_eq!(tree.median(), Some(4.0));
}

#[test]
fn test_quantile_boundary_conditions() {
    let mut tree = FloatTree::new(100);

    for i in 0..100 {
        tree.insert(i as f64).unwrap();
    }

    assert_eq!(tree.quantile(0.0), Some(0.0));
    assert_eq!(tree.quantile(1.0), Some(99.0));
    assert_eq!(tree.quantile(0.01), Some(0.0));
    assert_eq!(tree.quantile(0.99), Some(98.0));
    assert_eq!(tree.quantile(0.5), Some(49.0));

    assert_eq!(tree.quantile(0.123), Some(12.0));
    assert_eq!(tree.quantile(0.876), Some(86.0));
}

#[test]
fn test_concurrent_modifications() {
    let mut tree = FloatTree::new(10);
    tree.insert(1.0).unwrap();
    tree.insert(2.0).unwrap();
    tree.reset();
    tree.insert(3.0).unwrap();
}

#[test]
fn test_quantile_and_percentile_edge_values() {
    let mut tree = FloatTree::new(10);
    tree.insert(1.0).unwrap();
    tree.insert(2.0).unwrap();
    tree.insert(3.0).unwrap();

    assert!(tree.quantile(f64::NAN).is_some());
    assert!(tree.quantile(f64::INFINITY).is_some());
    assert!(tree.quantile(-5.0).is_some());
    assert!(tree.quantile(5.0).is_some());

    assert!(tree.percentile(f64::NAN).is_some());
    assert!(tree.percentile(-50.0).is_some());
    assert!(tree.percentile(150.0).is_some());
}

#[test]
fn test_many_median() {
    let inputs = [
        0.0, 3.0, 3.0, 1.0, 0.0, 6.0, 6.0, 0.0, 1.0, 2.0, 4.0, 0.0, 2.0, 0.0, 4.0,
    ];
    let mut tree = FloatTree::new(3);
    for (idx, &i) in inputs.iter().enumerate() {
        tree.insert(i);
        if idx % 3 == 0 {
            println!("{:?}", tree.median());
        }
    }
}
