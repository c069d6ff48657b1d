use ordered_float::OrderedFloat;
use rolling_stats::heap::Heap;
use rolling_stats::{
    Deque, Max, Maximum, Median, Min, Minimum, MonotonicQueue, OrderPolicy, RbTree, RingBuffer,
    RollingMedian, RollingMode, Window,
};

/// A small deterministic generator of pseudo-random numbers.
struct Lcg(u64);

impl Lcg {
    fn next(&mut self) -> u64 {
        self.0 = self
            .0
            .wrapping_mul(6364136223846793005)
            .wrapping_add(1442695040888963407);
        self.0 >> 33
    }

    fn below(&mut self, n: u64) -> u64 {
        self.next() % n
    }
}

fn key(x: f64) -> i64 {
    if x.is_nan() {
        i64::MAX
    } else if x == 0.0 {
        0
    } else {
        let bits = x.to_bits() as i64;
        if bits < 0 {
            bits ^ i64::MAX
        } else {
            bits
        }
    }
}

fn val(k: i64) -> f64 {
    if k == i64::MAX {
        f64::NAN
    } else if k < 0 {
        f64::from_bits((k ^ i64::MAX) as u64)
    } else {
        f64::from_bits(k as u64)
    }
}

fn median_of_sorted(sorted: &[i64]) -> Option<Median> {
    let n = sorted.len();
    if n == 0 {
        None
    } else if n % 2 == 1 {
        Some(Median::Single(sorted[n / 2]))
    } else {
        Some(Median::Pair(sorted[n / 2 - 1], sorted[n / 2]))
    }
}

#[test]
fn float_keys_order_like_ordered_floats() {
    let samples = [
        f64::NEG_INFINITY,
        f64::MIN,
        -1.0e10,
        -2.5,
        -1.0,
        -f64::MIN_POSITIVE,
        -0.0,
        0.0,
        f64::MIN_POSITIVE,
        1.0e-10,
        1.0,
        2.5,
        1.0e10,
        f64::MAX,
        f64::INFINITY,
        f64::NAN,
    ];
    for &a in samples.iter() {
        for &b in samples.iter() {
            assert_eq!(
                key(a).cmp(&key(b)),
                OrderedFloat(a).cmp(&OrderedFloat(b)),
                "{a} against {b}"
            );
        }
        assert_eq!(OrderedFloat(val(key(a))), OrderedFloat(a));
    }
}

#[test]
fn ring_buffer_holds_the_last_values() {
    for cap in 1..6usize {
        let mut buf: RingBuffer<u32> = RingBuffer::new(cap);
        let mut pushed: Vec<u32> = Vec::new();
        for i in 0..20u32 {
            let evicted = buf.push(i * 7 + 1);
            pushed.push(i * 7 + 1);
            let start = pushed.len().saturating_sub(cap);
            assert_eq!(buf.iter(), pushed[start..].to_vec());
            assert_eq!(buf.len(), pushed.len().min(cap));
            assert!(buf.len() <= cap);
            let expected = if pushed.len() > cap {
                Some(pushed[pushed.len() - cap - 1])
            } else {
                None
            };
            assert_eq!(evicted, expected);
            assert_eq!(buf.is_full(), pushed.len() >= cap);
        }
    }
}

#[test]
fn ring_buffer_of_capacity_one() {
    let mut buf: RingBuffer<i32> = RingBuffer::new(1);
    assert_eq!(buf.push(5), None);
    assert_eq!(buf.push(6), Some(5));
    assert_eq!(buf.iter(), vec![6]);
    assert_eq!(buf.capacity(), 1);
}

#[test]
fn ring_buffer_slots_copy_and_sort() {
    let mut buf: RingBuffer<i32> = RingBuffer::new(4);
    buf.push(9);
    buf.push(3);
    buf.copy_from_slice(&[4, 1, 3, 2]);
    assert_eq!(buf.as_slice(), &[4, 1, 3, 2]);
    assert_eq!(buf.len(), 2);
    assert_eq!(buf.sort(), &[1, 2, 3, 4]);
    assert_eq!(buf.index(), 0);
}

#[test]
fn window_holds_the_last_values() {
    let mut window: Window<i64> = Window::new(3);
    assert_eq!(window.len(), 0);
    assert_eq!(window.iter(), Vec::<i64>::new());
    let mut pushed: Vec<i64> = Vec::new();
    for i in 1..10i64 {
        let previous = window.next(i * i);
        pushed.push(i * i);
        let expected = if pushed.len() > 3 {
            pushed[pushed.len() - 4]
        } else {
            0
        };
        assert_eq!(previous, expected);
        let start = pushed.len().saturating_sub(3);
        assert_eq!(window.iter(), pushed[start..].to_vec());
        assert_eq!(window.index(), pushed.len() % 3);
    }
    window.copy_from_slice(&[3, 1, 2]);
    assert_eq!(window.as_slice(), &[3, 1, 2]);
    assert_eq!(window.sort(), &[1, 2, 3]);
}

#[test]
fn sorting_floats_keeps_the_values() {
    let mut window: Window<f64> = Window::new(5);
    for x in [2.5, -1.0, 7.0, 0.0, 2.5] {
        window.next(x);
    }
    assert_eq!(window.sort(), &[-1.0, 0.0, 2.5, 2.5, 7.0]);
}

#[test]
fn deque_iterates_front_to_back() {
    let mut deque: Deque<u8> = Deque::new(3);
    for i in 1..=5u8 {
        deque.push_back(i);
    }
    assert_eq!(deque.iter(), vec![3, 4, 5]);
    deque.pop_front();
    assert_eq!(deque.iter(), vec![4, 5]);
    deque.pop_back();
    assert_eq!(deque.iter(), vec![4]);
}

#[test]
fn monotonic_queue_matches_brute_force() {
    let mut rng = Lcg(7);
    for window in 1..7usize {
        let mut min_queue = MonotonicQueue::<i64, Min>::new(window);
        let mut max_queue = MonotonicQueue::<i64, Max>::new(window);
        let mut pushed: Vec<i64> = Vec::new();
        assert!(!min_queue.has_complete_window() || window == 0);
        for _ in 0..200 {
            let value = rng.below(20) as i64 - 10;
            min_queue.push(value);
            max_queue.push(value);
            pushed.push(value);
            let start = pushed.len().saturating_sub(window);
            let recent = &pushed[start..];
            assert_eq!(min_queue.front(), recent.iter().copied().min());
            assert_eq!(max_queue.front(), recent.iter().copied().max());
            assert_eq!(min_queue.has_complete_window(), pushed.len() >= window);
            assert_eq!(min_queue.capacity(), window);
        }
    }
}

#[test]
fn maximum_and_minimum_follow_the_window() {
    let mut highest: Maximum<i32> = Maximum::new(3);
    let mut lowest: Minimum<i32> = Minimum::new(3);
    assert_eq!(highest.get(), None);
    assert_eq!(lowest.get(), None);
    let input = [4, 9, 2, 1, 1, 7, 3];
    let highs = [None, None, Some(9), Some(9), Some(2), Some(7), Some(7)];
    let lows = [None, None, Some(2), Some(1), Some(1), Some(1), Some(1)];
    for i in 0..input.len() {
        highest.push(input[i]);
        lowest.push(input[i]);
        assert_eq!(highest.get(), highs[i]);
        assert_eq!(lowest.get(), lows[i]);
        assert_eq!(highest.count(), i + 1);
        assert_eq!(lowest.count(), i + 1);
    }
    highest.reset();
    lowest.reset();
    assert_eq!(highest.get(), None);
    assert_eq!(lowest.get(), None);
    assert_eq!(highest.count(), 0);
}

#[test]
fn minimum_waits_for_a_full_window() {
    let mut lowest: Minimum<f64> = Minimum::new(3);
    lowest.push(5.0);
    assert_eq!(lowest.get(), None);
    lowest.push(7.0);
    assert_eq!(lowest.get(), None);
    lowest.push(6.0);
    assert_eq!(lowest.get(), Some(5.0));
    let mut only: Maximum<f64> = Maximum::new(1);
    only.push(2.5);
    assert_eq!(only.get(), Some(2.5));
}

#[test]
fn equal_values_give_way_to_the_newer_one() {
    assert!(<Min as OrderPolicy<i64>>::should_remove(&5, &5));
    assert!(<Max as OrderPolicy<i64>>::should_remove(&5, &5));
    assert!(<Min as OrderPolicy<i64>>::should_remove(&6, &5));
    assert!(!<Min as OrderPolicy<i64>>::should_remove(&4, &5));
    assert!(<Max as OrderPolicy<i64>>::should_remove(&4, &5));
    assert!(!<Max as OrderPolicy<i64>>::should_remove(&6, &5));
    assert!(!<Min as OrderPolicy<f64>>::should_remove(&f64::NAN, &5.0));
    let mut queue = MonotonicQueue::<i64, Min>::new(3);
    for (i, v) in [2, 2, 2, 2, 3].into_iter().enumerate() {
        queue.push(v);
        assert_eq!(queue.front(), Some(2));
        assert_eq!(queue.count(), i + 1);
    }
    queue.push(4);
    assert_eq!(queue.front(), Some(2));
    queue.push(5);
    assert_eq!(queue.front(), Some(3));
}

#[test]
fn heap_pops_in_order() {
    let mut rng = Lcg(99);
    for largest_first in [true, false] {
        let mut heap = Heap::new(4, largest_first);
        let mut values: Vec<i64> = Vec::new();
        for _ in 0..300 {
            let v = rng.below(50) as i64 - 25;
            heap.push(v);
            values.push(v);
        }
        assert_eq!(heap.len(), 300);
        assert_eq!(heap.count(3), values.iter().filter(|&&v| v == 3).count());
        values.sort();
        if largest_first {
            values.reverse();
        }
        for &expected in values.iter() {
            assert_eq!(heap.peek(), Some(expected));
            assert_eq!(heap.pop(), Some(expected));
        }
        assert!(heap.is_empty());
        assert_eq!(heap.pop(), None);
        heap.push(1);
        heap.clear();
        assert_eq!(heap.peek(), None);
    }
}

#[test]
fn median_equals_the_middle_of_the_sorted_keys() {
    let mut rng = Lcg(2024);
    let mut tracker = RollingMedian::new(8);
    let mut held: Vec<i64> = Vec::new();
    for step in 0..4000 {
        let value = rng.below(12) as i64 - 6;
        if rng.below(3) == 0 {
            let found = held.iter().position(|&x| x == value);
            assert_eq!(tracker.pop(value), found.is_some(), "step {step}");
            if let Some(i) = found {
                held.remove(i);
            }
        } else {
            tracker.push(value);
            held.push(value);
        }
        let mut sorted = held.clone();
        sorted.sort();
        assert_eq!(tracker.median(), median_of_sorted(&sorted), "step {step}");
        assert_eq!(tracker.len(), held.len());
        assert_eq!(tracker.is_empty(), held.is_empty());
    }
}

#[test]
fn median_with_a_stale_duplicate_below_the_top() {
    let mut tracker = RollingMedian::new(6);
    for v in [2, 2, 4, 6, 7] {
        tracker.push(v);
    }
    assert!(tracker.pop(2));
    // keys held: 2, 4, 6, 7
    assert_eq!(tracker.median(), Some(Median::Pair(4, 6)));
    assert!(tracker.pop(2));
    assert!(!tracker.pop(2));
    assert_eq!(tracker.median(), Some(Median::Single(6)));
}

#[test]
fn median_sliding_window_example() {
    let mut tracker = RollingMedian::new(3);
    for v in [1, 2, 3] {
        tracker.push(v);
    }
    assert_eq!(tracker.median(), Some(Median::Single(2)));
    tracker.push(4);
    assert!(tracker.pop(1));
    assert_eq!(tracker.median(), Some(Median::Single(3)));
}

#[test]
fn median_survives_many_pending_removals() {
    let mut tracker = RollingMedian::new(16);
    for v in 1..=999i64 {
        tracker.push(v);
    }
    for v in 1..=800i64 {
        assert!(tracker.pop(v));
    }
    // keys held: 801..=999
    assert_eq!(tracker.len(), 199);
    assert_eq!(tracker.median(), Some(Median::Single(900)));
    for v in 801..=999i64 {
        assert!(tracker.pop(v));
    }
    assert_eq!(tracker.median(), None);
    assert!(tracker.is_empty());
}

#[test]
fn marking_counts_only_live_copies() {
    let mut tracker = RollingMedian::new(4);
    tracker.push(5);
    assert!(tracker.mark_for_removal(5));
    assert!(!tracker.mark_for_removal(5));
    assert_eq!(tracker.median(), None);
}

#[test]
fn mode_matches_brute_force() {
    let mut rng = Lcg(5);
    let mut tracker = RollingMode::new();
    let mut held: Vec<i64> = Vec::new();
    for step in 0..3000 {
        let value = rng.below(9) as i64 - 4;
        if rng.below(5) < 2 {
            tracker.pop(value);
            if let Some(i) = held.iter().position(|&x| x == value) {
                held.remove(i);
            }
        } else {
            tracker.push(value);
            held.push(value);
        }
        let mut best: Option<(usize, i64)> = None;
        let mut distinct = 0;
        for key in -4..=4i64 {
            let count = held.iter().filter(|&&x| x == key).count();
            assert_eq!(tracker.frequency_of(key), count, "step {step}");
            if count > 0 {
                distinct += 1;
                if best.map_or(true, |(c, _)| count > c) {
                    best = Some((count, key));
                }
            }
        }
        assert_eq!(tracker.mode(), best.map(|(_, k)| k), "step {step}");
        assert_eq!(tracker.max_frequency(), best.map_or(0, |(c, _)| c));
        assert_eq!(tracker.unique_count(), distinct);
        assert_eq!(tracker.is_empty(), held.is_empty());
        let mut modes = tracker.modes();
        modes.sort();
        let expected: Vec<i64> = (-4..=4i64)
            .filter(|k| best.map_or(false, |(c, _)| held.iter().filter(|&&x| x == *k).count() == c))
            .collect();
        assert_eq!(modes, expected, "step {step}");
    }
}

#[test]
fn mode_ties_go_to_the_smallest_key() {
    let mut tracker = RollingMode::new();
    for v in [key(3.0), key(1.0), key(2.0)] {
        tracker.push(v);
    }
    assert_eq!(tracker.mode().map(val), Some(1.0));
    tracker.push(key(-7.5));
    assert_eq!(tracker.mode().map(val), Some(-7.5));
}

#[test]
fn tree_ranks_match_the_sorted_keys() {
    let mut rng = Lcg(31);
    let mut tree = RbTree::new(16);
    let mut held: Vec<i64> = Vec::new();
    for step in 0..5000 {
        let value = rng.below(24) as i64 - 12;
        if rng.below(5) < 2 {
            let found = held.iter().position(|&x| x == value);
            assert_eq!(tree.remove(value), found.map(|_| value), "step {step}");
            if let Some(i) = found {
                held.remove(i);
            }
        } else {
            let distinct = {
                let mut d = held.clone();
                d.sort();
                d.dedup();
                d
            };
            let fits = distinct.contains(&value) || distinct.len() < 16;
            let slot = tree.insert(value);
            assert_eq!(slot.is_some(), fits, "step {step}");
            if fits {
                held.push(value);
                assert_eq!(tree.find_node(value), slot);
            }
        }
        let mut sorted = held.clone();
        sorted.sort();
        let mut distinct = sorted.clone();
        distinct.dedup();
        assert_eq!(tree.total_count(), sorted.len());
        assert_eq!(tree.len(), distinct.len());
        assert_eq!(tree.remaining_capacity(), 16 - distinct.len());
        assert_eq!(tree.is_empty(), sorted.is_empty());
        assert_eq!(tree.min(), sorted.first().copied());
        assert_eq!(tree.max(), sorted.last().copied());
        for k in 0..sorted.len() {
            assert_eq!(tree.find_kth_element(k), Some(sorted[k]), "step {step}");
        }
        assert_eq!(tree.find_kth_element(sorted.len()), None);
        let middle = if sorted.is_empty() {
            None
        } else {
            Some(sorted[(sorted.len() - 1) / 2])
        };
        assert_eq!(tree.median(), middle);
        for &k in distinct.iter() {
            let slot = tree.find_node(k).unwrap();
            assert_eq!(
                tree.node_count(slot),
                sorted.iter().filter(|&&x| x == k).count()
            );
        }
    }
}

#[test]
fn tree_gives_every_slot_back() {
    let mut tree = RbTree::new(8);
    for round in 0..200i64 {
        for i in 0..8i64 {
            assert!(tree.insert(round * 8 + i).is_some());
        }
        assert_eq!(tree.remaining_capacity(), 0);
        assert_eq!(tree.insert(-1), None);
        assert_eq!(tree.total_count(), 8);
        assert!(tree.insert(round * 8).is_some());
        assert_eq!(tree.remove(round * 8), Some(round * 8));
        for i in 0..8i64 {
            assert_eq!(tree.remove(round * 8 + i), Some(round * 8 + i));
        }
        assert!(tree.is_empty());
        assert_eq!(tree.remaining_capacity(), tree.capacity());
        assert_eq!(tree.remove(round), None);
    }
}

#[test]
fn tree_reset_empties_the_arena() {
    let mut tree = RbTree::new(4);
    for v in [3, 1, 2, 1] {
        tree.insert(v);
    }
    tree.reset();
    assert!(tree.is_empty());
    assert_eq!(tree.total_count(), 0);
    assert_eq!(tree.remaining_capacity(), 4);
    assert_eq!(tree.min(), None);
    assert_eq!(tree.max(), None);
    assert_eq!(tree.median(), None);
    for v in [9, 8, 7, 6] {
        assert!(tree.insert(v).is_some());
    }
    assert_eq!(tree.find_kth_element(0), Some(6));
}

#[test]
fn tree_keeps_the_red_black_rules() {
    let mut tree = RbTree::new(64);
    assert!(tree.verify_rb_invariants());
    let mut x: i64 = 7;
    let mut held: Vec<i64> = Vec::new();
    for step in 0..2000 {
        x = (x * 1103515245 + 12345) % 2147483648;
        let v = x % 97;
        if step % 3 != 2 && held.len() < 64 {
            if tree.insert(v).is_some() {
                held.push(v);
            }
        } else if !held.is_empty() {
            let at = (x as usize / 97) % held.len();
            let gone = held.swap_remove(at);
            assert_eq!(tree.remove(gone), Some(gone));
        }
        assert!(tree.verify_rb_invariants());
        assert_eq!(tree.total_count(), held.len());
    }
    let mut sorted = held.clone();
    sorted.sort();
    for (k, v) in sorted.iter().enumerate() {
        assert_eq!(tree.find_kth_element(k), Some(*v));
    }
    assert_eq!(tree.to_vec(), sorted);
}

#[test]
fn tree_lists_its_keys_in_order() {
    let mut tree = RbTree::new(4);
    assert_eq!(tree.to_vec(), Vec::<i64>::new());
    for v in [5, -2, 5, 9, -2, 5] {
        assert!(tree.insert(v).is_some());
    }
    assert_eq!(tree.to_vec(), vec![-2, -2, 5, 5, 5, 9]);
    assert_eq!(tree.remove(5), Some(5));
    assert_eq!(tree.remove(9), Some(9));
    assert_eq!(tree.to_vec(), vec![-2, -2, 5, 5]);
}

#[test]
fn ring_buffer_slots_can_be_changed_in_place() {
    let mut buffer: RingBuffer<i32> = RingBuffer::new(3);
    for v in [1, 2, 3, 4] {
        buffer.push(v);
    }
    assert_eq!(buffer.as_slice(), &[4, 2, 3]);
    for i in 0..buffer.capacity() {
        if let Some(slot) = buffer.slot_mut(i) {
            *slot *= 10;
        }
    }
    assert!(buffer.slot_mut(3).is_none());
    assert_eq!(buffer.as_slice(), &[40, 20, 30]);
    assert_eq!(buffer.iter(), vec![20, 30, 40]);
    assert_eq!(buffer.len(), 3);
    assert_eq!(buffer.push(5), Some(20));
}

#[test]
fn window_slots_can_be_changed_in_place() {
    let mut window: Window<i32> = Window::new(2);
    window.next(7);
    window.next(8);
    window.next(9);
    assert_eq!(window.as_slice(), &[9, 8]);
    *window.slot_mut(1).unwrap() = -8;
    assert!(window.slot_mut(2).is_none());
    assert_eq!(window.as_slice(), &[9, -8]);
    assert_eq!(window.iter(), vec![-8, 9]);
    assert!(window.is_full());
}

#[test]
fn median_reset_leaves_a_fresh_tracker() {
    let mut tracker = RollingMedian::new(4);
    for v in [5, 1, 9, 1] {
        tracker.push(v);
    }
    assert!(tracker.pop(1));
    assert!(tracker.pop(9));
    tracker.reset();
    assert!(tracker.is_empty());
    assert_eq!(tracker.median(), None);
    assert!(!tracker.pop(5));
    for v in [4, 2, 8] {
        tracker.push(v);
    }
    assert_eq!(tracker.median(), Some(Median::Single(4)));
    tracker.push(6);
    assert_eq!(tracker.median(), Some(Median::Pair(4, 6)));
}
