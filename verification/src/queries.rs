//! Timestamps read back from a render pass.

use vstd::prelude::*;

verus! {

/// The pair of timestamps taken around one render pass.
pub struct QueryResults {
    pub render_start_end_timestamps: [u64; 2],
}

impl QueryResults {
    /// Number of timestamp queries per pass: render start and render end.
    pub const NUM_QUERIES: u64 = 2;

    /// Reads the start and end timestamps out of the raw query buffer, in
    /// that order.
    pub fn from_raw_results(timestamps: Vec<u64>) -> (results: Self)
        requires
            timestamps@.len() == Self::NUM_QUERIES,
        ensures
            results.render_start_end_timestamps@ == timestamps@,
    {
        let start: u64 = timestamps[0];
        let end: u64 = timestamps[1];
        let results = QueryResults { render_start_end_timestamps: [start, end] };
        assert(results.render_start_end_timestamps@ =~= timestamps@);
        results
    }

    /// Ticks elapsed between the two timestamps, with the wrap-around that
    /// the counter itself has.
    pub fn elapsed_ticks(&self) -> (ticks: u64)
        ensures
            ticks as int == (self.render_start_end_timestamps@[1] as int
                - self.render_start_end_timestamps@[0] as int) % 0x1_0000_0000_0000_0000,
    {
        self.render_start_end_timestamps[1].wrapping_sub(self.render_start_end_timestamps[0])
    }
}

} // verus!
