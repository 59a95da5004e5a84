//! The throughput figures that the audio monitor reports.
use vstd::prelude::*;

verus! {

/// The seconds between two readings of the sample counters.
pub const MONITOR_INTERVAL_SECS: usize = 2;

/// Samples per second between two readings of a running counter taken
/// `seconds` apart, rounded down.
pub fn rate_per_second(count_now: usize, count_before: usize, seconds: usize) -> (rate: usize)
    requires
        count_before <= count_now,
        0 < seconds,
    ensures
        rate == (count_now - count_before) / (seconds as int),
{
    (count_now - count_before) / seconds
}

/// The monitor's memory between two readings: the counters it saw last.
pub struct MonitorState {
    pub last_input: usize,
    pub last_output: usize,
}

/// The rates that one reading of the monitor reports, in samples per second.
pub struct Rates {
    pub input: usize,
    pub output: usize,
}

impl MonitorState {
    /// A monitor that has seen both counters at zero.
    pub fn new() -> (m: MonitorState)
        ensures
            m.last_input == 0,
            m.last_output == 0,
    {
        MonitorState { last_input: 0, last_output: 0 }
    }

    /// One reading, `MONITOR_INTERVAL_SECS` after the previous one: reports
    /// the input and output rates since then and remembers the counters.
    pub fn observe(&mut self, input: usize, output: usize) -> (rates: Rates)
        requires
            old(self).last_input <= input,
            old(self).last_output <= output,
        ensures
            rates.input == (input - old(self).last_input) / (MONITOR_INTERVAL_SECS as int),
            rates.output == (output - old(self).last_output) / (MONITOR_INTERVAL_SECS as int),
            final(self).last_input == input,
            final(self).last_output == output,
    {
        let rates = Rates {
            input: rate_per_second(input, self.last_input, MONITOR_INTERVAL_SECS),
            output: rate_per_second(output, self.last_output, MONITOR_INTERVAL_SECS),
        };
        self.last_input = input;
        self.last_output = output;
        rates
    }
}

} // verus!
