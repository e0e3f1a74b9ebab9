use aether::perf::Probe;

#[test]
fn work_is_logged_from_its_threshold_on() {
    let p = Probe::new("layout", 3);
    assert_eq!(p.name, "layout");
    assert!(!p.due(2_999_999));
    assert!(p.due(3_000_000));
    assert!(Probe::new("all", 0).due(0));
}
