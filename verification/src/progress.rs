//! Counters of a `check-css` run, shared with whoever shows its progress
//! while it goes on.

use std::sync::atomic::{AtomicBool, AtomicU64, Ordering};
use vstd::prelude::*;

verus! {

/// Counters that the work updates as it goes, and a flag set when it is
/// done; any thread may read them at any time.
pub struct Progress {
    pub css_files: AtomicU64,
    pub selectors: AtomicU64,
    pub html_files: AtomicU64,
    pub selectors_used: AtomicU64,
    pub unused_bytes: AtomicU64,
    pub done: AtomicBool,
}

/// The counters of a `Progress`, read once.
pub struct ProgressSnapshot {
    pub css_files: u64,
    pub selectors: u64,
    pub html_files: u64,
    pub selectors_used: u64,
    pub unused_bytes: u64,
}

impl Progress {
    /// Counters at zero, not done.
    pub fn new() -> Self {
        Progress {
            css_files: AtomicU64::new(0),
            selectors: AtomicU64::new(0),
            html_files: AtomicU64::new(0),
            selectors_used: AtomicU64::new(0),
            unused_bytes: AtomicU64::new(0),
            done: AtomicBool::new(false),
        }
    }

    /// Reads each counter once.
    pub fn snapshot(&self) -> ProgressSnapshot {
        ProgressSnapshot {
            css_files: self.css_files.load(Ordering::Relaxed),
            selectors: self.selectors.load(Ordering::Relaxed),
            html_files: self.html_files.load(Ordering::Relaxed),
            selectors_used: self.selectors_used.load(Ordering::Relaxed),
            unused_bytes: self.unused_bytes.load(Ordering::Relaxed),
        }
    }

    /// Counts a parsed stylesheet with `selectors` rules spanning
    /// `rule_bytes` bytes, all of them unused so far.
    pub fn record_css_file(&self, selectors: u64, rule_bytes: u64) {
        self.css_files.fetch_add(1, Ordering::Relaxed);
        self.selectors.fetch_add(selectors, Ordering::Relaxed);
        self.unused_bytes.fetch_add(rule_bytes, Ordering::Relaxed);
    }

    /// Counts a selector found used, whose rule spans `rule_bytes` bytes.
    pub fn record_selector_used(&self, rule_bytes: u64) {
        self.selectors_used.fetch_add(1, Ordering::Relaxed);
        self.unused_bytes.fetch_sub(rule_bytes, Ordering::Relaxed);
    }

    /// Counts an HTML file read and tested.
    pub fn record_html_file(&self) {
        self.html_files.fetch_add(1, Ordering::Relaxed);
    }
}

impl ProgressSnapshot {
    /// The selectors not found used: `selectors - selectors_used`, or 0 when
    /// more were counted used than counted in all.
    pub fn selectors_unused(&self) -> (r: u64)
        ensures
            r == if self.selectors >= self.selectors_used {
                self.selectors - self.selectors_used
            } else {
                0
            },
    {
        self.selectors.saturating_sub(self.selectors_used)
    }
}

} // verus!
