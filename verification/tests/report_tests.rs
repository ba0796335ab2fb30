//! Counter behavior of the report sink.

use conserve_core::report::Report;

#[test]
pub fn test_count() {
    let mut r = Report::new();
    assert_eq!(r.get_count("splines_reticulated"), 0);
    r.increment("splines_reticulated");
    assert_eq!(r.get_count("splines_reticulated"), 1);
    r.increment("splines_reticulated");
    assert_eq!(r.get_count("splines_reticulated"), 2);
}

#[test]
pub fn counters_are_independent() {
    let mut r = Report::new();
    r.increment("a");
    r.increment("a");
    r.increment("b");
    assert_eq!(r.get_count("a"), 2);
    assert_eq!(r.get_count("b"), 1);
    assert_eq!(r.get_count("c"), 0);
}
