use pixi_task_runner::debounce::{AutoReloadConfig, Debouncer, DEFAULT_DEBOUNCE_MS};

#[test]
fn default_window_is_half_a_second() {
    assert_eq!(AutoReloadConfig::default().debounce_ms, 500);
    assert_eq!(DEFAULT_DEBOUNCE_MS, 500);
}

#[test]
fn first_trigger_is_accepted() {
    let mut d = Debouncer::new(500);
    assert!(d.offer(0));
}

#[test]
fn burst_inside_window_is_collapsed() {
    let mut d = Debouncer::from_config(&AutoReloadConfig::default());
    assert!(d.offer(1000));
    assert!(!d.offer(1050));
    assert!(!d.offer(1499));
    assert!(d.offer(1500));
}

#[test]
fn discarded_trigger_does_not_reset_window() {
    let mut d = Debouncer::new(500);
    assert!(d.offer(0));
    assert!(!d.offer(400));
    // measured from the accepted trigger at 0, not from the discarded one at 400
    assert!(d.offer(500));
}

#[test]
fn clock_going_back_is_inside_window() {
    let mut d = Debouncer::new(500);
    assert!(d.offer(1000));
    assert!(!d.offer(10));
}
