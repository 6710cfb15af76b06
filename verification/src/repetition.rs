//! Arithmetic of the read-throughput measurement harness: timer-frequency
//! estimation from matched timer samples, and accumulation of per-test
//! timing results.  Reading the timers themselves is left to the caller.

use vstd::prelude::*;

verus! {

/// Frequency of the operating-system timer, in ticks per second: the timer
/// counts microseconds.
pub fn get_os_timer_freq() -> (r: u64)
    ensures
        r == 1000000u64,
{
    1_000_000
}

/// How many OS-timer ticks make up the given number of milliseconds: the
/// target a measurement loop waits for before sampling the CPU timer again.
pub fn os_wait_time(os_freq: u64, ms_to_wait: u64) -> (r: u64)
    requires
        os_freq * ms_to_wait <= u64::MAX,
    ensures
        r == os_freq * ms_to_wait / 1000,
{
    os_freq * ms_to_wait / 1000
}

/// Estimates the CPU timer's frequency in ticks per second from one matched
/// pair of CPU-timer and OS-timer samples taken at the start and the end of
/// a wait: the CPU ticks elapsed, scaled by the OS timer's frequency over
/// the OS ticks elapsed.  An empty OS-timer interval yields zero.
pub fn estimate_cpu_timer_freq(
    os_freq: u64,
    cpu_start: u64,
    cpu_end: u64,
    os_start: u64,
    os_end: u64,
) -> (r: u64)
    requires
        cpu_start <= cpu_end,
        os_start <= os_end,
        os_freq * (cpu_end - cpu_start) <= u64::MAX,
    ensures
        os_end == os_start ==> r == 0,
        os_end > os_start ==> r == os_freq * (cpu_end - cpu_start) / (os_end - os_start),
{
    let os_elapsed = os_end - os_start;
    let cpu_elapsed = cpu_end - cpu_start;
    if os_elapsed != 0 {
        os_freq * cpu_elapsed / os_elapsed
    } else {
        0
    }
}

/// Accumulated results of repeated timed test runs: how many runs finished,
/// their total time, and the largest and smallest single-run times.
#[derive(Debug)]
pub struct RepetitionTestResults {
    pub test_count: u64,
    pub total_time: i64,
    pub max_time: u64,
    pub min_time: u64,
}

impl RepetitionTestResults {
    /// Fresh results: no runs yet, and the minimum primed so that the first
    /// positive run time replaces it.
    pub fn new() -> (r: RepetitionTestResults)
        ensures
            r.test_count == 0,
            r.total_time == 0,
            r.max_time == 0,
            r.min_time == u64::MAX,
    {
        RepetitionTestResults { test_count: 0, total_time: 0, max_time: 0, min_time: u64::MAX }
    }

    /// Folds one finished run into the results: the run's time is added to
    /// the total, the maximum is raised if the run was slower, and the
    /// minimum lowered if the run was faster — a zero-time run is not
    /// allowed to claim the minimum.
    pub fn record_test(&mut self, elapsed_time: i64)
        requires
            0 <= elapsed_time,
            old(self).total_time + elapsed_time <= i64::MAX,
            old(self).test_count < u64::MAX,
        ensures
            final(self).test_count == old(self).test_count + 1,
            final(self).total_time == old(self).total_time + elapsed_time,
            final(self).max_time == if elapsed_time as u64 > old(self).max_time {
                elapsed_time as u64
            } else {
                old(self).max_time
            },
            final(self).min_time == if 0 < elapsed_time && (elapsed_time as u64) < old(self).min_time {
                elapsed_time as u64
            } else {
                old(self).min_time
            },
    {
        let elapsed = elapsed_time as u64;
        self.total_time = self.total_time + elapsed_time;
        if elapsed > self.max_time {
            self.max_time = elapsed;
        }
        if elapsed > 0 && elapsed < self.min_time {
            self.min_time = elapsed;
        }
        self.test_count = self.test_count + 1;
    }
}

} // verus!
