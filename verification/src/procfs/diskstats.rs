//! This module contains a sampling parser for /proc/diskstats
use vstd::prelude::*;
use std::collections::HashMap;
use crate::splitter::{SplitColumns, SplitLinesBySpace};
use crate::text::{bytes_of, lines, words, parse_unsigned, parse_unsigned_str};
use crate::time::Duration;

verus! {

broadcast use vstd::std_specs::hash::group_hash_axioms;

/// Number of statistics columns that follow the device identifiers
pub open spec fn num_stats() -> int {
    11
}

/// Value of a statistic of /proc/diskstats, which is a machine word
pub open spec fn stat_value(w: Seq<u8>) -> usize {
    parse_unsigned(w, usize::MAX as int)->0 as usize
}

/// A counter value, unwrapped against the last value observed for it: if the
/// machine word went down, it is assumed to have overflowed once, so the
/// difference is taken modulo the word size.
pub open spec fn unwrap_counter(new_value: usize, last_counter: u64) -> int {
    last_counter + (new_value.wrapping_sub(last_counter as usize) as u64)
}

/// Counters are unwrapped so as to undo at most one overflow of the machine
/// word: a counter which did not go down since its last value keeps its
/// value, and one which went down is taken to have wrapped around once
pub proof fn lemma_unwrap_counter(new_value: usize, last_counter: u64)
    requires
        last_counter <= usize::MAX,
    ensures
        new_value >= last_counter ==> unwrap_counter(new_value, last_counter) == new_value,
        new_value < last_counter ==> unwrap_counter(new_value, last_counter) == new_value
            + usize::MAX + 1,
{
}

/// Which statistics column each of the ten cached counters comes from (the
/// number of IO operations in progress is no counter)
pub open spec fn counter_column(j: int) -> int {
    if j < 8 {
        j
    } else {
        j + 1
    }
}

/// Whether the counters of a record can be unwrapped against the last values
pub open spec fn counters_fit(last: Seq<u64>, stats: Seq<Seq<u8>>) -> bool {
    forall|j: int|
        0 <= j < 10 ==> #[trigger] unwrap_counter(stat_value(stats[counter_column(j)]), last[j])
            <= u64::MAX
}

/// The unwrapped counters of a record
pub open spec fn new_counters(last: Seq<u64>, stats: Seq<Seq<u8>>) -> Seq<u64> {
    Seq::new(10, |j: int| unwrap_counter(stat_value(stats[counter_column(j)]), last[j]) as u64)
}

/// Statistics columns of a record: eleven machine words
pub open spec fn stats_ok(stats: Seq<Seq<u8>>) -> bool {
    &&& stats.len() >= num_stats()
    &&& forall|i: int| 0 <= i < num_stats() ==> parse_unsigned(#[trigger] stats[i], usize::MAX as int) is Some
}

/// A line of /proc/diskstats: major and minor device numbers, device name,
/// then the statistics
pub open spec fn record_line_ok(line: Seq<u8>) -> bool {
    let w = words(line);
    &&& w.len() >= 3
    &&& parse_unsigned(w[0], u32::MAX as int) is Some
    &&& parse_unsigned(w[1], u32::MAX as int) is Some
    &&& stats_ok(w.skip(3))
}

/// Device numbers of a line of /proc/diskstats
pub open spec fn device_of(line: Seq<u8>) -> DeviceNumbers {
    DeviceNumbers {
        major: parse_unsigned(words(line)[0], u32::MAX as int)->0 as u32,
        minor: parse_unsigned(words(line)[1], u32::MAX as int)->0 as u32,
    }
}

/// Last counter values observed on a device, all zeroes if it was never seen
pub open spec fn last_counters(cache: Map<u64, [u64; 10]>, key: u64) -> Seq<u64> {
    if cache.contains_key(key) {
        cache[key]@
    } else {
        Seq::new(10, |j: int| 0u64)
    }
}

/// The cache of counter values after parsing the first n lines of a file
pub open spec fn cache_after(cache: Map<u64, [u64; 10]>, ls: Seq<Seq<u8>>, n: int) -> Map<u64, Seq<u64>>
    decreases n,
{
    if n <= 0 {
        Map::new(|k: u64| cache.contains_key(k), |k: u64| cache[k]@)
    } else {
        let before = cache_after(cache, ls, n - 1);
        let key = device_of(ls[n - 1]).key();
        let last = if before.contains_key(key) {
            before[key]
        } else {
            Seq::new(10, |j: int| 0u64)
        };
        before.insert(key, new_counters(last, words(ls[n - 1]).skip(3)))
    }
}

/// Whether every line of a file can be parsed, starting from the given cache
/// of counter values
pub open spec fn sample_ok(cache: Map<u64, [u64; 10]>, ls: Seq<Seq<u8>>) -> bool {
    forall|i: int|
        0 <= i < ls.len() ==> {
            &&& record_line_ok(#[trigger] ls[i])
            &&& counters_fit(
                {
                    let before = cache_after(cache, ls, i);
                    let key = device_of(ls[i]).key();
                    if before.contains_key(key) {
                        before[key]
                    } else {
                        Seq::new(10, |j: int| 0u64)
                    }
                },
                words(ls[i]).skip(3),
            )
        }
}

/// Incremental parser for /proc/diskstats
#[derive(Debug)]
pub struct Parser {
    /// Record of previously observed counter values on each device (keyed by
    /// device numbers), used for handling of counter overflows on 32-bit
    /// platforms.
    pub previous_counter_vals: HashMap<u64, [u64; 10]>,
}

impl Parser {
    /// Build a parser, using an initial file sample, which is checked to
    /// parse without issues. This relies on the disk stats format that was
    /// introduced in Linux 2.6.25.
    pub fn new(initial_contents: &str) -> (r: Self)
        requires
            sample_ok(Map::empty(), lines(bytes_of(initial_contents))),
        ensures
            Map::new(
                |k: u64| r.previous_counter_vals@.contains_key(k),
                |k: u64| r.previous_counter_vals@[k]@,
            ) == cache_after(
                Map::empty(),
                lines(bytes_of(initial_contents)),
                lines(bytes_of(initial_contents)).len() as int,
            ),
    {
        let mut parser = Parser { previous_counter_vals: HashMap::new() };
        let ghost ls = lines(bytes_of(initial_contents));
        let ghost empty = parser.previous_counter_vals@;
        assert(empty =~= Map::<u64, [u64; 10]>::empty());
        let mut records = parser.parse(initial_contents);
        let ghost mut done: int = 0;
        loop
            invariant
                records.wf(),
                0 <= done <= ls.len(),
                records.remaining() == ls.skip(done),
                sample_ok(empty, ls),
                records.cache_view() == cache_after(empty, ls, done),
                *final(records.parser) == after_borrow(parser),
            ensures
                records.cache_view() == cache_after(empty, ls, ls.len() as int),
                *final(records.parser) == after_borrow(parser),
            decreases ls.len() - done,
        {
            proof {
                if done < ls.len() {
                    assert(records.remaining()[0] == ls[done]);
                    assert(record_line_ok(ls[done]));
                }
            }
            match records.next() {
                Some(record) => {
                    let _numbers = record.device_numbers();
                    let _name = record.device_name();
                    proof {
                        assert(words(ls[done]).skip(3) =~= record.stats_columns.remaining_words());
                    }
                    let _stats = record.extract_statistics();
                    proof {
                        assert(ls.skip(done + 1) =~= ls.skip(done).drop_first());
                        done = done + 1;
                    }
                },
                None => {
                    break;
                },
            }
        }
        parser
    }

    /// Parse a pseudo-file sample into a stream of records
    pub fn parse<'a, 'b>(&'a mut self, file_contents: &'b str) -> (r: RecordStream<'a, 'b>)
        ensures
            r.wf(),
            r.remaining() == lines(bytes_of(file_contents)),
            r.cache_view() == Map::new(
                |k: u64| old(self).previous_counter_vals@.contains_key(k),
                |k: u64| old(self).previous_counter_vals@[k]@,
            ),
            *final(self) == *final(r.parser),
    {
        RecordStream::new(self, file_contents)
    }
}

/// Stream of records from /proc/diskstats
///
/// This streaming iterator yields a stream of disk stats records, each
/// representing a line of /proc/diskstats (i.e. statistics on a block device).
pub struct RecordStream<'a, 'b> {
    /// Parent parser struct
    pub parser: &'a mut Parser,
    /// Iterator into the lines and columns of /proc/diskstats
    pub file_lines: SplitLinesBySpace<'b>,
}

impl<'a, 'b> RecordStream<'a, 'b> {
    pub open spec fn wf(self) -> bool {
        self.file_lines.wf()
    }

    /// Lines of the file which have not been turned into records yet
    pub open spec fn remaining(self) -> Seq<Seq<u8>> {
        self.file_lines.remaining_lines()
    }

    /// The cache of counter values, as sequences
    pub open spec fn cache_view(self) -> Map<u64, Seq<u64>> {
        Map::new(
            |k: u64| self.parser.previous_counter_vals@.contains_key(k),
            |k: u64| self.parser.previous_counter_vals@[k]@,
        )
    }

    /// Parse the next record from /proc/diskstats into a stream of fields
    pub fn next<'c>(&'c mut self) -> (r: Option<Record<'b, 'c>>)
        where 'b: 'c
        requires
            old(self).wf(),
            old(self).remaining().len() > 0 ==> record_line_ok(old(self).remaining()[0]),
        ensures
            match r {
                None => {
                    &&& old(self).remaining().len() == 0
                    &&& final(self).wf()
                    &&& final(self).remaining() == old(self).remaining()
                    &&& final(self).cache_view() == old(self).cache_view()
                    &&& *final(final(self).parser) == *final(old(self).parser)
                },
                Some(record) => {
                    let line = old(self).remaining()[0];
                    &&& old(self).remaining().len() > 0
                    &&& record.device_nums == device_of(line)
                    &&& bytes_of(record.device_str) == words(line)[2]
                    &&& record.stats_columns.is_open()
                    &&& record.stats_columns.remaining_words() == words(line).skip(3)
                    &&& record.stats_columns.parent.remaining_lines() == old(
                        self,
                    ).remaining().drop_first()
                    &&& *record.parser == *old(self).parser
                    &&& final(self).file_lines == *final(record.stats_columns.parent)
                    &&& *final(self).parser == *final(record.parser)
                    &&& *final(final(self).parser) == *final(old(self).parser)
                },
            },
    {
        match self.file_lines.next() {
            Some(cols) => Some(Record::new(&mut *self.parser, cols)),
            None => None,
        }
    }

    /// Create a record stream from raw contents
    pub fn new(parser: &'a mut Parser, file_contents: &'b str) -> (r: Self)
        ensures
            r.wf(),
            r.remaining() == lines(bytes_of(file_contents)),
            *r.parser == *old(parser),
            *final(parser) == *final(r.parser),
    {
        RecordStream { parser, file_lines: SplitLinesBySpace::new(file_contents) }
    }
}

/// Record from /proc/diskstats (activity of one block device)
pub struct Record<'b, 'c> where 'b: 'c {
    /// Parent parser struct
    pub parser: &'c mut Parser,
    /// Device numbers
    pub device_nums: DeviceNumbers,
    /// Device name
    pub device_str: &'b str,
    /// Unparsed device statistics
    pub stats_columns: SplitColumns<'b, 'c>,
}

impl<'b, 'c> Record<'b, 'c> {
    /// Query the device number
    pub fn device_numbers(&self) -> (r: DeviceNumbers)
        ensures
            r == self.device_nums,
    {
        self.device_nums
    }

    /// Query the device name
    pub fn device_name(&self) -> (r: &'b str)
        ensures
            r == self.device_str,
    {
        self.device_str
    }

    /// Parse and return the statistics, unwrapping counter overflows against
    /// the last counter values observed on this device (all zeroes if it was
    /// never observed), which get updated.
    pub fn extract_statistics(self) -> (r: Statistics)
        requires
            self.stats_columns.is_open(),
            stats_ok(self.stats_columns.remaining_words()),
            counters_fit(
                last_counters((*self.parser).previous_counter_vals@, self.device_nums.key()),
                self.stats_columns.remaining_words(),
            ),
        ensures
            r.unwrapped_from(
                last_counters((*old(self.parser)).previous_counter_vals@, self.device_nums.key()),
                self.stats_columns.remaining_words(),
            ),
            (*final(self.parser)).previous_counter_vals@.dom() == (*old(self.parser)).previous_counter_vals@.dom().insert(
                self.device_nums.key(),
            ),
            (*final(self.parser)).previous_counter_vals@[self.device_nums.key()]@ == new_counters(
                last_counters((*old(self.parser)).previous_counter_vals@, self.device_nums.key()),
                self.stats_columns.remaining_words(),
            ),
            forall|k: u64|
                k != self.device_nums.key() && #[trigger] (*old(self.parser)).previous_counter_vals@.contains_key(k)
                    ==> (*final(self.parser)).previous_counter_vals@[k] == (*old(self.parser)).previous_counter_vals@[k],
            SplitLinesBySpace::same_lines(*old(self.stats_columns.parent), *final(self.stats_columns.parent)),
    {
        let key = self.device_nums.to_key();
        let parser = self.parser;
        let mut counters: [u64; 10] = match parser.previous_counter_vals.get(&key) {
            Some(last) => *last,
            None => [0, 0, 0, 0, 0, 0, 0, 0, 0, 0],
        };
        assert(counters@ =~= last_counters(parser.previous_counter_vals@, key));
        let stats = Statistics::new(&mut counters, self.stats_columns);
        parser.previous_counter_vals.insert(key, counters);
        stats
    }

    /// Construct a record from associated file columns
    pub fn new(parser: &'c mut Parser, columns: SplitColumns<'b, 'c>) -> (r: Self)
        requires
            columns.is_open(),
            columns.remaining_words().len() >= 3,
            parse_unsigned(columns.remaining_words()[0], u32::MAX as int) is Some,
            parse_unsigned(columns.remaining_words()[1], u32::MAX as int) is Some,
        ensures
            r.device_nums.major == parse_unsigned(columns.remaining_words()[0], u32::MAX as int)->0,
            r.device_nums.minor == parse_unsigned(columns.remaining_words()[1], u32::MAX as int)->0,
            bytes_of(r.device_str) == columns.remaining_words()[2],
            r.stats_columns.is_open(),
            r.stats_columns.remaining_words() == columns.remaining_words().skip(3),
            SplitLinesBySpace::same_lines(*old(columns.parent), *r.stats_columns.parent),
            *final(old(columns.parent)) == *final(r.stats_columns.parent),
            *r.parser == *old(parser),
            *final(parser) == *final(r.parser),
    {
        let mut columns = columns;
        let ghost w = columns.remaining_words();
        let major_num = parse_unsigned_str(columns.next().unwrap(), 0xFFFF_FFFF).unwrap() as u32;
        assert(columns.remaining_words()[0] == w[1]);
        let minor_num = parse_unsigned_str(columns.next().unwrap(), 0xFFFF_FFFF).unwrap() as u32;
        assert(columns.remaining_words()[0] == w[2]);
        let name = columns.next().unwrap();
        assert(columns.remaining_words() =~= w.skip(3));
        Record {
            parser,
            device_nums: DeviceNumbers { major: major_num, minor: minor_num },
            device_str: name,
            stats_columns: columns,
        }
    }
}

/// Device identifier based on major and minor device numbers
///
/// This maps to the dev_t type from the Linux kernel, but it uses 64 bits
/// instead of 32 bits in order to maximize the odds that this library will
/// still work under future kernel versions.
#[derive(Clone, Copy, Debug, PartialEq, Eq, Hash, Structural)]
pub struct DeviceNumbers {
    /// Major device number, usually (but not always) maps to a kernel driver
    pub major: u32,
    /// Minor device number, arbitrarily attributed by drivers to devices
    pub minor: u32,
}

impl DeviceNumbers {
    /// Single number which identifies the device
    pub open spec fn key(self) -> u64 {
        (self.major as int * 0x1_0000_0000 + self.minor as int) as u64
    }

    /// Single number which identifies the device
    pub fn to_key(&self) -> (r: u64)
        ensures
            r == self.key(),
    {
        (self.major as u64) * 0x1_0000_0000 + (self.minor as u64)
    }
}

/// Duration of a number of milliseconds
pub fn duration_ms(ms_counter: u64) -> (d: Duration)
    ensures
        d@ == ms_counter * 1_000_000,
{
    let nanosecs = ((ms_counter % 1000) * 1_000_000) as u32;
    let whole_secs = ms_counter / 1000;
    Duration::new(whole_secs, nanosecs)
}

/// Statistics for a given device
#[derive(Debug, PartialEq)]
pub struct Statistics {
    /// Total number of reads that completed successfully
    pub completed_reads: u64,
    /// Total number of adjacent reads that were merged by the kernel
    pub merged_reads: u64,
    /// Total number of drive sectors that were successfully read
    pub sector_reads: u64,
    /// Total time spent reading data, as measured by summing the difference
    /// between the end and start time of all reads. The clock starts when
    /// reads are queued in the Linux kernel, not when they are actually
    /// processed: this indicates how long all threads cumulatively blocked
    /// for IO, rather than how much time the hardware spent at servicing IO.
    pub total_read_time: Duration,
    /// Total number of writes that completed successfully
    pub completed_writes: u64,
    /// Total number of adjacent writes that were merged by the kernel
    pub merged_writes: u64,
    /// Total number of drive sectors that were successfully written
    pub sector_writes: u64,
    /// Total time spent writing data (see total_read_time for caveats)
    pub total_write_time: Duration,
    /// Number of IO operations that are in progress (queued or running)
    pub io_in_progress: usize,
    /// Total wall clock time during which IO was in progress
    pub wall_clock_io_time: Duration,
    /// Time spent performing IO, weighted by the number of outstanding IO
    /// requests. This can be an indicator of IO pressure in the kernel.
    pub weighted_io_time: Duration,
}

impl Statistics {
    /// Whether these statistics were parsed from the statistics columns
    /// `stats`, with counters unwrapped against the last counter values
    pub open spec fn unwrapped_from(self, last: Seq<u64>, stats: Seq<Seq<u8>>) -> bool {
        let c = new_counters(last, stats);
        &&& self.completed_reads == c[0]
        &&& self.merged_reads == c[1]
        &&& self.sector_reads == c[2]
        &&& self.total_read_time@ == c[3] * 1_000_000
        &&& self.completed_writes == c[4]
        &&& self.merged_writes == c[5]
        &&& self.sector_writes == c[6]
        &&& self.total_write_time@ == c[7] * 1_000_000
        &&& self.io_in_progress == stat_value(stats[8])
        &&& self.wall_clock_io_time@ == c[8] * 1_000_000
        &&& self.weighted_io_time@ == c[9] * 1_000_000
    }

    /// Parse the next statistic of a record
    fn next_stat<'b, 'c>(columns: &mut SplitColumns<'b, 'c>) -> (r: usize)
        requires
            old(columns).is_open(),
            old(columns).remaining_words().len() > 0,
            parse_unsigned(old(columns).remaining_words()[0], usize::MAX as int) is Some,
        ensures
            r == stat_value(old(columns).remaining_words()[0]),
            final(columns).is_open(),
            final(columns).remaining_words() == old(columns).remaining_words().drop_first(),
            SplitLinesBySpace::same_lines(*old(columns).parent, *final(columns).parent),
            *final(final(columns).parent) == *final(old(columns).parent),
    {
        parse_unsigned_str(columns.next().unwrap(), usize::MAX as u64).unwrap() as usize
    }

    /// Unwrap a counter against the last value observed for it
    fn unwrap(new_value: usize, last_counter: u64) -> (r: u64)
        requires
            unwrap_counter(new_value, last_counter) <= u64::MAX,
        ensures
            r == unwrap_counter(new_value, last_counter),
    {
        last_counter + (new_value.wrapping_sub(last_counter as usize) as u64)
    }

    /// Parse device statistics, using knowledge of previous counter values
    /// for the sake of relatively sane overflow handling: the last counter
    /// values are replaced by the new, unwrapped ones.
    pub fn new<'b, 'c>(last_counters: &mut [u64; 10], columns: SplitColumns<'b, 'c>) -> (r: Self)
        requires
            columns.is_open(),
            stats_ok(columns.remaining_words()),
            counters_fit(old(last_counters)@, columns.remaining_words()),
        ensures
            r.unwrapped_from(old(last_counters)@, columns.remaining_words()),
            final(last_counters)@ == new_counters(old(last_counters)@, columns.remaining_words()),
            SplitLinesBySpace::same_lines(*old(columns.parent), *final(columns.parent)),
    {
        let ghost w = columns.remaining_words();
        let ghost l = last_counters@;
        let mut cols = columns;
        let mut v: Vec<usize> = Vec::new();
        let mut i: usize = 0;
        assert(w.skip(0) =~= w);
        while i < 11
            invariant
                0 <= i <= 11,
                cols.is_open(),
                stats_ok(w),
                cols.remaining_words() == w.skip(i as int),
                v@.len() == i,
                forall|k: int| 0 <= k < i ==> #[trigger] v@[k] == stat_value(w[k]),
                SplitLinesBySpace::same_lines(*columns.parent, *cols.parent),
                *final(cols.parent) == *final(columns.parent),
            decreases 11 - i,
        {
            assert(cols.remaining_words()[0] == w[i as int]);
            v.push(Self::next_stat(&mut cols));
            assert(w.skip(i + 1) =~= w.skip(i as int).drop_first());
            i = i + 1;
        }
        proof {
            assert(unwrap_counter(stat_value(w[counter_column(0)]), l[0]) <= u64::MAX);
            assert(unwrap_counter(stat_value(w[counter_column(1)]), l[1]) <= u64::MAX);
            assert(unwrap_counter(stat_value(w[counter_column(2)]), l[2]) <= u64::MAX);
            assert(unwrap_counter(stat_value(w[counter_column(3)]), l[3]) <= u64::MAX);
            assert(unwrap_counter(stat_value(w[counter_column(4)]), l[4]) <= u64::MAX);
            assert(unwrap_counter(stat_value(w[counter_column(5)]), l[5]) <= u64::MAX);
            assert(unwrap_counter(stat_value(w[counter_column(6)]), l[6]) <= u64::MAX);
            assert(unwrap_counter(stat_value(w[counter_column(7)]), l[7]) <= u64::MAX);
            assert(unwrap_counter(stat_value(w[counter_column(8)]), l[8]) <= u64::MAX);
            assert(unwrap_counter(stat_value(w[counter_column(9)]), l[9]) <= u64::MAX);
            assert(counter_column(8) == 9 && counter_column(9) == 10);
        }
        let c0 = Self::unwrap(v[0], last_counters[0]);
        let c1 = Self::unwrap(v[1], last_counters[1]);
        let c2 = Self::unwrap(v[2], last_counters[2]);
        let c3 = Self::unwrap(v[3], last_counters[3]);
        let c4 = Self::unwrap(v[4], last_counters[4]);
        let c5 = Self::unwrap(v[5], last_counters[5]);
        let c6 = Self::unwrap(v[6], last_counters[6]);
        let c7 = Self::unwrap(v[7], last_counters[7]);
        let c8 = Self::unwrap(v[9], last_counters[8]);
        let c9 = Self::unwrap(v[10], last_counters[9]);
        *last_counters = [c0, c1, c2, c3, c4, c5, c6, c7, c8, c9];
        assert(last_counters@ =~= new_counters(l, w));
        Statistics {
            completed_reads: c0,
            merged_reads: c1,
            sector_reads: c2,
            total_read_time: duration_ms(c3),
            completed_writes: c4,
            merged_writes: c5,
            sector_writes: c6,
            total_write_time: duration_ms(c7),
            io_in_progress: v[8],
            wall_clock_io_time: duration_ms(c8),
            weighted_io_time: duration_ms(c9),
        }
    }
}

} // verus!
