//! This module contains a parser for /proc/uptime, which records the data
//! of each sample as it comes
use vstd::prelude::*;
use crate::parsers::{is_duration_text, duration_text_value};
use crate::procfs::uptime::FieldStream;
use crate::text::{bytes_of, fields};
use crate::time::Duration;

verus! {

/// Data samples from /proc/uptime, in structure-of-array layout
#[derive(Debug, PartialEq)]
pub struct UptimeData {
    /// Elapsed wall clock time since the system was started
    pub wall_clock_uptime: Vec<Duration>,
    /// Cumulative amount of time spent by all CPUs in the idle state
    pub cpu_idle_time: Vec<Duration>,
}

impl UptimeData {
    /// Create a new uptime data store
    pub fn new() -> (r: Self)
        ensures
            r.wall_clock_uptime@.len() == 0,
            r.cpu_idle_time@.len() == 0,
    {
        UptimeData { wall_clock_uptime: Vec::new(), cpu_idle_time: Vec::new() }
    }

    /// Parse a sample of /proc/uptime (whitespace-separated uptime and idle
    /// time, in fractional seconds) and record it
    pub fn push_sample(&mut self, file_contents: &str)
        requires
            fields(bytes_of(file_contents)).len() >= 2,
            is_duration_text(fields(bytes_of(file_contents))[0]),
            is_duration_text(fields(bytes_of(file_contents))[1]),
        ensures
            final(self).wall_clock_uptime@.len() == old(self).wall_clock_uptime@.len() + 1,
            final(self).wall_clock_uptime@.drop_last() == old(self).wall_clock_uptime@,
            final(self).wall_clock_uptime@.last()@ == duration_text_value(
                fields(bytes_of(file_contents))[0],
            ),
            final(self).cpu_idle_time@.len() == old(self).cpu_idle_time@.len() + 1,
            final(self).cpu_idle_time@.drop_last() == old(self).cpu_idle_time@,
            final(self).cpu_idle_time@.last()@ == duration_text_value(
                fields(bytes_of(file_contents))[1],
            ),
    {
        let mut numbers_iter = FieldStream::new(file_contents);
        let ghost fs = numbers_iter.remaining();
        let uptime = numbers_iter.next().unwrap();
        assert(numbers_iter.remaining()[0] == fs[1]);
        let idle = numbers_iter.next().unwrap();
        let ghost w = self.wall_clock_uptime@;
        let ghost c = self.cpu_idle_time@;
        self.wall_clock_uptime.push(uptime);
        self.cpu_idle_time.push(idle);
        assert(self.wall_clock_uptime@.drop_last() =~= w);
        assert(self.cpu_idle_time@.drop_last() =~= c);
    }
}

} // verus!
