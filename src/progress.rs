use vstd::prelude::*;
use std::sync::atomic::AtomicBool;
use std::sync::atomic::AtomicU32;
use std::sync::atomic::Ordering;

verus! {

/// The fraction of a batch that is done, as `(numerator, denominator)`:
/// the denominator is the expected total, or 1 while none is set, and the
/// numerator is the completed count, capped at the denominator.
pub fn progress_ratio(completed: u32, total: u32) -> (r: (u32, u32))
    ensures
        r.1 == (if total == 0 { 1 } else { total }),
        r.0 == (if completed <= r.1 { completed } else { r.1 }),
{
    let den: u32 = if total == 0 { 1 } else { total };
    let num: u32 = if completed <= den { completed } else { den };
    (num, den)
}

/// Counters shared between the thread that generates a batch and the
/// threads that poll it: placed words, the expected total, and whether the
/// batch is over. Every access is atomic, so a poll never blocks or fails.
pub struct Progress {
    completed: AtomicU32,
    total: AtomicU32,
    finished: AtomicBool,
}

impl Progress {
    /// Idle counters: nothing placed, a neutral total of 1, not finished.
    pub fn new() -> Progress {
        Progress {
            completed: AtomicU32::new(0),
            total: AtomicU32::new(1),
            finished: AtomicBool::new(false),
        }
    }

    /// Marks a batch as running, with `total` placements expected.
    pub fn start_batch(&self, total: u32) {
        self.finished.store(false, Ordering::SeqCst);
        self.completed.store(0, Ordering::SeqCst);
        self.total.store(total, Ordering::SeqCst);
    }

    /// Marks a batch as over and resets the counters to the idle state; the
    /// flag is raised last, so a poll that sees it never sees a running count.
    pub fn finish_batch(&self) {
        self.completed.store(0, Ordering::SeqCst);
        self.total.store(1, Ordering::SeqCst);
        self.finished.store(true, Ordering::SeqCst);
    }

    /// Counts one more placed word.
    pub fn record_placement(&self) {
        self.completed.fetch_add(1, Ordering::SeqCst);
    }

    /// The number of words placed so far.
    pub fn get_count(&self) -> u32 {
        self.completed.load(Ordering::SeqCst)
    }

    /// Overwrites the number of words placed so far.
    pub fn set_count(&self, count: u32) {
        self.completed.store(count, Ordering::SeqCst);
    }

    /// The expected number of placements of the running batch.
    pub fn get_total(&self) -> u32 {
        self.total.load(Ordering::SeqCst)
    }

    /// Whether the last batch is over.
    pub fn get_finished(&self) -> bool {
        self.finished.load(Ordering::SeqCst)
    }

    /// The current progress as `(numerator, denominator)`, a fraction in [0, 1].
    pub fn get_progress(&self) -> (r: (u32, u32))
        ensures
            r.1 >= 1,
            r.0 <= r.1,
    {
        let completed = self.completed.load(Ordering::SeqCst);
        let total = self.total.load(Ordering::SeqCst);
        progress_ratio(completed, total)
    }
}

} // verus!
