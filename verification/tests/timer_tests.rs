use ferrum_cloud::Timer;

#[test]
fn test_timer_measures_time() {
    let mut timer = Timer::new();
    let first = timer.elapsed();
    let second = timer.elapsed();
    assert!(second >= first);
    timer.reset();
    let _ = timer.elapsed();
}
