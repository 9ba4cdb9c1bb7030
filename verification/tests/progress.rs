use hq_lib::progress::{Progress, ProgressSnapshot};
use std::sync::atomic::Ordering;

#[test]
fn selectors_unused_subtracts() {
    let s = ProgressSnapshot { css_files: 1, selectors: 10, html_files: 3, selectors_used: 4, unused_bytes: 0 };
    assert_eq!(s.selectors_unused(), 6);
}

#[test]
fn selectors_unused_saturates_at_zero() {
    let s = ProgressSnapshot { css_files: 0, selectors: 2, html_files: 0, selectors_used: 5, unused_bytes: 0 };
    assert_eq!(s.selectors_unused(), 0);
}

#[test]
fn progress_counts_what_is_recorded() {
    let p = Progress::new();
    let s = p.snapshot();
    assert_eq!((s.css_files, s.selectors, s.html_files, s.selectors_used, s.unused_bytes), (0, 0, 0, 0, 0));
    assert!(!p.done.load(Ordering::Relaxed));
    p.record_css_file(3, 60);
    p.record_selector_used(20);
    p.record_html_file();
    let s = p.snapshot();
    assert_eq!((s.css_files, s.selectors, s.html_files, s.selectors_used, s.unused_bytes), (1, 3, 1, 1, 40));
    assert_eq!(s.selectors_unused(), 2);
}
