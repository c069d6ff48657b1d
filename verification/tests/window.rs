use rolling_stats::Window;

#[test]
fn test_window_next() {
    let mut window = Window::new(3);
    assert_eq!(window.next(1.0), 0.0);
    assert_eq!(window.next(2.0), 0.0);
    assert_eq!(window.next(3.0), 0.0);
    assert_eq!(window.next(4.0), 1.0);
    assert_eq!(window.next(5.0), 2.0);
}

#[test]
fn test_window_is_full() {
    let mut window = Window::new(3);
    assert!(!window.is_full());
    window.next(1.0);
    assert!(!window.is_full());
    window.next(2.0);
    assert!(!window.is_full());
    window.next(3.0);
    assert!(window.is_full());
}

#[test]
fn test_window_reset() {
    let mut window = Window::new(3);
    window.next(1.0);
    window.next(2.0);
    window.next(3.0);
    assert!(window.is_full());
    window.reset();
    assert!(!window.is_full());
}
