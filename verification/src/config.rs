//! The settings of a run, and their usual values.

use vstd::prelude::*;

verus! {

/// The usual limit of a scan: 10^8.
pub const LIMIT: u64 = 100_000_000;

/// The usual number of workers.
pub const THREAD_COUNT: u32 = 8;

/// The usual destination of the report.
pub const OUTPUT_FILE: &'static str = "primes.txt";

/// The settings of a run.
#[derive(Debug)]
pub struct Config {
    /// The largest number to test.
    pub limit: u64,
    /// The number of workers.
    pub thread_count: u32,
    /// The file that the report is written to.
    pub output_path: String,
}

impl Config {
    /// The counter is wide enough for the candidates of the scan: every
    /// number from 2 up to the limit, and one beyond the limit for each
    /// worker. In a scan of which this does not hold the counter starts again
    /// at 0 before the last worker has stopped.
    pub open spec fn fits_counter_spec(&self) -> bool {
        self.limit + self.thread_count <= u64::MAX
    }

    /// Whether the counter is wide enough for the candidates of the scan.
    #[verifier::when_used_as_spec(fits_counter_spec)]
    pub fn fits_counter(&self) -> (fits: bool)
        ensures
            fits == self.fits_counter_spec(),
    {
        self.limit <= u64::MAX - self.thread_count as u64
    }
}

impl Default for Config {
    /// The usual settings.
    fn default() -> (config: Self)
        ensures
            config.limit == LIMIT,
            config.thread_count == THREAD_COUNT,
            config.output_path@ == OUTPUT_FILE@,
            config.fits_counter(),
    {
        Config { limit: LIMIT, thread_count: THREAD_COUNT, output_path: OUTPUT_FILE.to_owned() }
    }
}

} // verus!
