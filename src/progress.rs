use vstd::prelude::*;
use std::sync::Arc;
use std::sync::atomic::{AtomicUsize, Ordering};
use std::time::{Duration, Instant};

verus! {

/// `std::time::Instant`, held opaque.
#[verifier::external_type_specification]
#[verifier::external_body]
pub struct ExInstant(Instant);

/// Relies on `Instant::now`: the current instant; nothing is promised of it.
pub assume_specification[ Instant::now ]() -> Instant;

/// Relies on `Instant::elapsed`: the time since the instant; nothing is
/// promised of it.
pub assume_specification[ Instant::elapsed ](i: &Instant) -> Duration;

/// Relies on `Arc::clone`: another handle on the same shared counter.
#[verifier::external_body]
fn share(counter: &Arc<AtomicUsize>) -> Arc<AtomicUsize> {
    Arc::clone(counter)
}

/// Counts processed files for a batch run; the count may be shared with
/// worker threads, so nothing is promised of its value at a given time.
#[derive(Debug)]
pub struct ProgressReporter {
    total: u64,
    processed: Arc<AtomicUsize>,
    start_time: Instant,
}

impl ProgressReporter {
    /// The number of files the run expects.
    pub closed spec fn expected(&self) -> u64 {
        self.total
    }

    pub fn new(total_files: usize) -> (r: ProgressReporter)
        ensures
            r.expected() == total_files as u64,
    {
        ProgressReporter {
            total: total_files as u64,
            processed: Arc::new(AtomicUsize::new(0)),
            start_time: Instant::now(),
        }
    }

    /// Counts one more processed file.
    pub fn increment(&self) {
        self.processed.fetch_add(1, Ordering::SeqCst);
    }

    pub fn total(&self) -> (r: u64)
        ensures
            r == self.expected(),
    {
        self.total
    }

    pub fn processed(&self) -> usize {
        self.processed.load(Ordering::SeqCst)
    }

    pub fn elapsed(&self) -> Duration {
        self.start_time.elapsed()
    }

    /// A handle on the shared counter, for worker threads.
    pub fn get_counter(&self) -> Arc<AtomicUsize> {
        share(&self.processed)
    }
}

} // verus!
