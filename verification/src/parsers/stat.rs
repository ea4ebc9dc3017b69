//! This module contains a sampling parser for /proc/stat, which analyzes the
//! file line by line with a line and word splitter.
use vstd::prelude::*;
use crate::parsers::SplitLinesBySpace;
use crate::procfs::stat::cpu::{self, appended, opt_appended, ticks_duration, ticks_to_nanos};
use crate::procfs::stat::interrupt::{InterruptCounts, InterruptStatData};
use crate::procfs::stat::{cpu_tag, page_tag, swap_tag, intr_tag, ctxt_tag, btime_tag,
    processes_tag, procs_tag, running_tag, blocked_tag, softirq_tag, has_cpu_prefix,
    collect_words, counters_from};
use crate::text::{bytes_of, lines, words, char_boundary, parse_unsigned, parse_i64_spec,
    parses_as_u64, u64_value, parse_unsigned_str, parse_i64_str, bytes_equal,
    starts_with_bytes};
use crate::time::Duration;

verus! {

/// Every container of /proc/stat data implements the following trait, which
/// exposes its ability to be filled from segmented /proc/stat contents.
pub trait StatDataStore: Sized {
    /// Internal consistency of the container, with room for one more sample
    spec fn store_wf(&self) -> bool;

    /// Whether the words of a line can be parsed into a sample
    spec fn accepts(&self, words: Seq<Seq<u8>>) -> bool;

    /// Number of data samples that were recorded so far
    spec fn sample_count(&self) -> int;

    /// Parse and record a sample of data from the current line of a splitter
    fn push(&mut self, stats: &mut SplitLinesBySpace)
        requires
            old(self).store_wf(),
            old(stats).wf(),
            old(stats).is_inside_line(),
            old(self).accepts(old(stats).line_words()),
        ensures
            final(self).sample_count() == old(self).sample_count() + 1,
            final(stats).wf(),
            final(stats).text() == old(stats).text(),
            final(stats).remaining_lines() == old(stats).remaining_lines(),
    ;

    /// Number of data samples that were recorded so far
    fn len(&self) -> (r: usize)
        ensures
            r == self.sample_count(),
    ;
}

impl StatDataStore for Vec<u64> {
    open spec fn store_wf(&self) -> bool {
        true
    }

    open spec fn accepts(&self, words: Seq<Seq<u8>>) -> bool {
        words.len() >= 1 && parses_as_u64(words[0])
    }

    open spec fn sample_count(&self) -> int {
        self@.len() as int
    }

    /// Parse a counter and record it
    fn push(&mut self, stats: &mut SplitLinesBySpace)
        ensures
            final(self)@ == old(self)@.push(u64_value(old(stats).line_words()[0])),
    {
        let value = parse_unsigned_str(stats.next().unwrap(), u64::MAX).unwrap();
        self.push(value);
    }

    fn len(&self) -> (r: usize) {
        self.len()
    }
}

impl StatDataStore for Vec<u32> {
    open spec fn store_wf(&self) -> bool {
        true
    }

    open spec fn accepts(&self, words: Seq<Seq<u8>>) -> bool {
        words.len() >= 1 && parse_unsigned(words[0], u32::MAX as int) is Some
    }

    open spec fn sample_count(&self) -> int {
        self@.len() as int
    }

    /// Parse a counter and record it
    fn push(&mut self, stats: &mut SplitLinesBySpace)
        ensures
            final(self)@ == old(self)@.push(
                parse_unsigned(old(stats).line_words()[0], u32::MAX as int)->0 as u32,
            ),
    {
        let value = parse_unsigned_str(stats.next().unwrap(), 0xFFFF_FFFF).unwrap() as u32;
        self.push(value);
    }

    fn len(&self) -> (r: usize) {
        self.len()
    }
}

impl StatDataStore for Vec<u16> {
    open spec fn store_wf(&self) -> bool {
        true
    }

    open spec fn accepts(&self, words: Seq<Seq<u8>>) -> bool {
        words.len() >= 1 && parse_unsigned(words[0], u16::MAX as int) is Some
    }

    open spec fn sample_count(&self) -> int {
        self@.len() as int
    }

    /// Parse a counter and record it
    fn push(&mut self, stats: &mut SplitLinesBySpace)
        ensures
            final(self)@ == old(self)@.push(
                parse_unsigned(old(stats).line_words()[0], u16::MAX as int)->0 as u16,
            ),
    {
        let value = parse_unsigned_str(stats.next().unwrap(), 0xFFFF).unwrap() as u16;
        self.push(value);
    }

    fn len(&self) -> (r: usize) {
        self.len()
    }
}

/// The amount of CPU time that the system spent in various states
#[derive(Clone, Debug, PartialEq)]
pub struct CPUStatData {
    /// Time spent in user mode
    pub user_time: Vec<Duration>,
    /// Time spent in user mode with low priority (nice)
    pub nice_time: Vec<Duration>,
    /// Time spent in system (aka kernel) mode
    pub system_time: Vec<Duration>,
    /// Time spent in the idle task (should match second entry in /proc/uptime)
    pub idle_time: Vec<Duration>,
    /// Time spent waiting for IO to complete (since Linux 2.5.41)
    pub io_wait_time: Option<Vec<Duration>>,
    /// Time spent servicing hardware interrupts (since Linux 2.6.0-test4)
    pub irq_time: Option<Vec<Duration>>,
    /// Time spent servicing softirqs (since Linux 2.6.0-test4)
    pub softirq_time: Option<Vec<Duration>>,
    /// "Stolen" time spent in other operating systems when running in a
    /// virtualized environment (since Linux 2.6.11)
    pub stolen_time: Option<Vec<Duration>>,
    /// Time spent running a virtual CPU for guest OSs (since Linux 2.6.24)
    pub guest_time: Option<Vec<Duration>>,
    /// Time spent running a niced guest (see above, since Linux 2.6.33)
    pub guest_nice_time: Option<Vec<Duration>>,
    /// Number of clock ticks in one second, which CPU timings are counted in
    pub ticks_per_sec: u64,
}

impl CPUStatData {
    /// Tell how many CPU timers are recorded
    pub fn num_timers(&self) -> (r: usize)
        ensures
            r == self.timers().timer_count(),
    {
        let mut n: usize = 4;
        if self.io_wait_time.is_some() {
            n = n + 1;
        }
        if self.irq_time.is_some() {
            n = n + 1;
        }
        if self.softirq_time.is_some() {
            n = n + 1;
        }
        if self.stolen_time.is_some() {
            n = n + 1;
        }
        if self.guest_time.is_some() {
            n = n + 1;
        }
        if self.guest_nice_time.is_some() {
            n = n + 1;
        }
        n
    }

    /// The CPU timers, as the per-record CPU statistics of /proc/stat
    pub open spec fn timers(self) -> cpu::Data {
        cpu::Data {
            user_time: self.user_time,
            nice_time: self.nice_time,
            system_time: self.system_time,
            idle_time: self.idle_time,
            io_wait_time: self.io_wait_time,
            irq_time: self.irq_time,
            softirq_time: self.softirq_time,
            stolen_time: self.stolen_time,
            guest_time: self.guest_time,
            guest_nice_time: self.guest_nice_time,
        }
    }

    /// Create new CPU statistics, given the number of CPU timers in the
    /// records of /proc/stat and the number of clock ticks in one second
    pub fn new(num_timers: u8, ticks_per_sec: u64) -> (r: Self)
        requires
            ticks_per_sec > 0,
        ensures
            r.timers().wf(),
            r.timers().is_empty_for(num_timers as int),
            r.ticks_per_sec == ticks_per_sec,
    {
        let conditional_vec = |index: u8| -> (v: Option<Vec<Duration>>)
            ensures
                v matches Some(v) ==> v@.len() == 0,
                v is Some <==> index <= num_timers,
            {
                if index <= num_timers {
                    Some(Vec::new())
                } else {
                    None
                }
            };
        CPUStatData {
            user_time: Vec::new(),
            nice_time: Vec::new(),
            system_time: Vec::new(),
            idle_time: Vec::new(),
            io_wait_time: conditional_vec(5),
            irq_time: conditional_vec(6),
            softirq_time: conditional_vec(7),
            stolen_time: conditional_vec(8),
            guest_time: conditional_vec(9),
            guest_nice_time: conditional_vec(10),
            ticks_per_sec,
        }
    }

    /// Parse the next CPU timing of a line
    fn next_stat(stats: &mut SplitLinesBySpace, ticks_per_sec: u64) -> (r: Duration)
        requires
            ticks_per_sec > 0,
            old(stats).wf(),
            old(stats).is_inside_line(),
            old(stats).line_words().len() > 0,
            parses_as_u64(old(stats).line_words()[0]),
        ensures
            r@ == ticks_to_nanos(u64_value(old(stats).line_words()[0]) as int, ticks_per_sec as int),
            final(stats).wf(),
            final(stats).is_inside_line(),
            final(stats).text() == old(stats).text(),
            final(stats).remaining_lines() == old(stats).remaining_lines(),
            final(stats).line_words() == old(stats).line_words().drop_first(),
    {
        let ticks = parse_unsigned_str(stats.next().unwrap(), u64::MAX).unwrap();
        ticks_duration(ticks, ticks_per_sec, 1_000_000_000 / ticks_per_sec)
    }

    /// Load an optional CPU timer, if the kernel provides it
    fn optional_push(
        stat: &mut Option<Vec<Duration>>,
        stats: &mut SplitLinesBySpace,
        ticks_per_sec: u64,
        Ghost(words): Ghost<Seq<Seq<u8>>>,
        Ghost(index): Ghost<int>,
    )
        requires
            0 <= index,
            ticks_per_sec > 0,
            old(stats).wf(),
            old(stats).is_inside_line(),
            old(stat).is_some() ==> words.len() > index && cpu::counters(words, index + 1),
            old(stat).is_some() ==> old(stats).line_words() == words.skip(index),
        ensures
            final(stats).wf(),
            final(stats).is_inside_line(),
            final(stats).text() == old(stats).text(),
            final(stats).remaining_lines() == old(stats).remaining_lines(),
            opt_appended(
                *old(stat),
                *final(stat),
                ticks_to_nanos(u64_value(words[index]) as int, ticks_per_sec as int),
            ),
            old(stat).is_some() ==> final(stats).line_words() == words.skip(index + 1),
            old(stat).is_none() ==> *final(stats) == *old(stats),
    {
        match stat.take() {
            Some(mut vec) => {
                assert(stats.line_words()[0] == words[index]);
                assert(words.skip(index + 1) =~= words.skip(index).drop_first());
                let ghost before = vec@;
                vec.push(Self::next_stat(stats, ticks_per_sec));
                assert(vec@.drop_last() =~= before);
                *stat = Some(vec);
            },
            None => {},
        }
    }
}

impl StatDataStore for CPUStatData {
    open spec fn store_wf(&self) -> bool {
        self.timers().wf() && self.ticks_per_sec > 0
    }

    open spec fn accepts(&self, words: Seq<Seq<u8>>) -> bool {
        cpu::counters(words, self.timers().timer_count())
    }

    open spec fn sample_count(&self) -> int {
        self.user_time@.len() as int
    }

    /// Parse CPU statistics and add them to the internal data store
    fn push(&mut self, stats: &mut SplitLinesBySpace)
        ensures
            final(self).timers().wf(),
            final(self).ticks_per_sec == old(self).ticks_per_sec,
            old(self).timers().pushed(
                final(self).timers(),
                old(stats).line_words(),
                old(self).ticks_per_sec as int,
            ),
    {
        let ghost words = stats.line_words();
        let ghost old_self = *self;
        let tps = self.ticks_per_sec;
        assert(words.skip(0) =~= words);
        self.user_time.push(Self::next_stat(stats, tps));
        assert(words.skip(1) =~= words.skip(0).drop_first());
        self.nice_time.push(Self::next_stat(stats, tps));
        assert(words.skip(2) =~= words.skip(1).drop_first());
        self.system_time.push(Self::next_stat(stats, tps));
        assert(words.skip(3) =~= words.skip(2).drop_first());
        self.idle_time.push(Self::next_stat(stats, tps));
        assert(words.skip(4) =~= words.skip(3).drop_first());
        assert(self.user_time@.drop_last() =~= old_self.user_time@);
        assert(self.nice_time@.drop_last() =~= old_self.nice_time@);
        assert(self.system_time@.drop_last() =~= old_self.system_time@);
        assert(self.idle_time@.drop_last() =~= old_self.idle_time@);
        Self::optional_push(&mut self.io_wait_time, stats, tps, Ghost(words), Ghost(4));
        Self::optional_push(&mut self.irq_time, stats, tps, Ghost(words), Ghost(5));
        Self::optional_push(&mut self.softirq_time, stats, tps, Ghost(words), Ghost(6));
        Self::optional_push(&mut self.stolen_time, stats, tps, Ghost(words), Ghost(7));
        Self::optional_push(&mut self.guest_time, stats, tps, Ghost(words), Ghost(8));
        Self::optional_push(&mut self.guest_nice_time, stats, tps, Ghost(words), Ghost(9));
    }

    /// Tell how many samples are present in the data store
    fn len(&self) -> (r: usize) {
        self.user_time.len()
    }
}

/// Storage paging activity statistics
#[derive(Debug, PartialEq)]
pub struct PagingStatData {
    /// Number of RAM pages that were paged in from disk
    pub incoming: Vec<u64>,
    /// Number of RAM pages that were paged out to disk
    pub outgoing: Vec<u64>,
}

impl PagingStatData {
    /// Create new paging statistics
    pub fn new() -> (r: Self)
        ensures
            r.incoming@.len() == 0,
            r.outgoing@.len() == 0,
    {
        PagingStatData { incoming: Vec::new(), outgoing: Vec::new() }
    }
}

impl StatDataStore for PagingStatData {
    open spec fn store_wf(&self) -> bool {
        self.incoming@.len() == self.outgoing@.len()
    }

    open spec fn accepts(&self, words: Seq<Seq<u8>>) -> bool {
        words.len() >= 2 && parses_as_u64(words[0]) && parses_as_u64(words[1])
    }

    open spec fn sample_count(&self) -> int {
        self.incoming@.len() as int
    }

    /// Parse paging statistics and add them to the internal data store
    fn push(&mut self, stats: &mut SplitLinesBySpace)
        ensures
            final(self).incoming@ == old(self).incoming@.push(u64_value(old(stats).line_words()[0])),
            final(self).outgoing@ == old(self).outgoing@.push(u64_value(old(stats).line_words()[1])),
    {
        let ghost words = stats.line_words();
        let incoming = parse_unsigned_str(stats.next().unwrap(), u64::MAX).unwrap();
        assert(stats.line_words()[0] == words[1]);
        let outgoing = parse_unsigned_str(stats.next().unwrap(), u64::MAX).unwrap();
        self.incoming.push(incoming);
        self.outgoing.push(outgoing);
    }

    /// Tell how many samples are present in the data store
    fn len(&self) -> (r: usize) {
        self.incoming.len()
    }
}


/// Members of the /proc/stat data store which the lines of the file map to
#[derive(Clone, Copy, Debug, PartialEq, Eq, Structural)]
pub enum StatDataMember {
    AllCPUs,
    EachCPU,
    Paging,
    Swapping,
    Interrupts,
    ContextSwitches,
    BootTime,
    ProcessForks,
    RunnableProcesses,
    BlockedProcesses,
    SoftIRQs,
    /// Special entry for unsupported lines of /proc/stat
    Unsupported,
}

/// The member that a line with header `h` maps to
pub open spec fn member_of(h: Seq<u8>) -> StatDataMember {
    if h == cpu_tag() {
        StatDataMember::AllCPUs
    } else if has_cpu_prefix(h) {
        StatDataMember::EachCPU
    } else if h == page_tag() {
        StatDataMember::Paging
    } else if h == swap_tag() {
        StatDataMember::Swapping
    } else if h == intr_tag() {
        StatDataMember::Interrupts
    } else if h == ctxt_tag() {
        StatDataMember::ContextSwitches
    } else if h == btime_tag() {
        StatDataMember::BootTime
    } else if h == processes_tag() {
        StatDataMember::ProcessForks
    } else if h == procs_tag() + running_tag() {
        StatDataMember::RunnableProcesses
    } else if h == procs_tag() + blocked_tag() {
        StatDataMember::BlockedProcesses
    } else if h == softirq_tag() {
        StatDataMember::SoftIRQs
    } else {
        StatDataMember::Unsupported
    }
}

/// Which member each header of /proc/stat maps to: "cpu" to the statistics
/// of all CPUs, every other header which starts with "cpu" to per-CPU
/// statistics, "page", "swap", "intr", "ctxt", "btime", "processes",
/// "procs_running", "procs_blocked" and "softirq" to their own members, and
/// any other header to no member
pub proof fn lemma_member_of_headers(h: Seq<u8>)
    ensures
        h =~= seq![99u8, 112, 117] ==> member_of(h) == StatDataMember::AllCPUs,
        (h.len() > 3 && h[0] == 99 && h[1] == 112 && h[2] == 117) ==> member_of(h)
            == StatDataMember::EachCPU,
        h =~= seq![112u8, 97, 103, 101] ==> member_of(h) == StatDataMember::Paging,
        h =~= seq![115u8, 119, 97, 112] ==> member_of(h) == StatDataMember::Swapping,
        h =~= seq![105u8, 110, 116, 114] ==> member_of(h) == StatDataMember::Interrupts,
        h =~= seq![99u8, 116, 120, 116] ==> member_of(h) == StatDataMember::ContextSwitches,
        h =~= seq![98u8, 116, 105, 109, 101] ==> member_of(h) == StatDataMember::BootTime,
        h =~= seq![112u8, 114, 111, 99, 101, 115, 115, 101, 115] ==> member_of(h)
            == StatDataMember::ProcessForks,
        h =~= seq![112u8, 114, 111, 99, 115, 95, 114, 117, 110, 110, 105, 110, 103] ==> member_of(h)
            == StatDataMember::RunnableProcesses,
        h =~= seq![112u8, 114, 111, 99, 115, 95, 98, 108, 111, 99, 107, 101, 100] ==> member_of(h)
            == StatDataMember::BlockedProcesses,
        h =~= seq![115u8, 111, 102, 116, 105, 114, 113] ==> member_of(h) == StatDataMember::SoftIRQs,
        !(h.len() >= 3 && h[0] == 99 && h[1] == 112 && h[2] == 117) && h != seq![112u8, 97, 103, 101]
            && h != seq![115u8, 119, 97, 112] && h != seq![105u8, 110, 116, 114] && h != seq![
            99u8,
            116,
            120,
            116,
        ] && h != seq![98u8, 116, 105, 109, 101] && h != seq![
            112u8,
            114,
            111,
            99,
            101,
            115,
            115,
            101,
            115,
        ] && h != seq![112u8, 114, 111, 99, 115, 95, 114, 117, 110, 110, 105, 110, 103] && h
            != seq![112u8, 114, 111, 99, 115, 95, 98, 108, 111, 99, 107, 101, 100] && h != seq![
            115u8,
            111,
            102,
            116,
            105,
            114,
            113,
        ] ==> member_of(h) == StatDataMember::Unsupported,
{
    if h.len() >= 3 {
        assert(h.take(3) =~= seq![h[0], h[1], h[2]]);
    }
    assert(procs_tag() + running_tag() =~= seq![112u8, 114, 111, 99, 115, 95, 114, 117, 110, 110, 105, 110, 103]);
    assert(procs_tag() + blocked_tag() =~= seq![112u8, 114, 111, 99, 115, 95, 98, 108, 111, 99, 107, 101, 100]);
}

/// Headers whose member can be told: all but "cpu" get their first three
/// bytes compared with "cpu", so they hold at least three bytes, after which
/// a character ends
pub open spec fn member_defined(h: Seq<u8>) -> bool {
    h != cpu_tag() ==> h.len() >= 3 && char_boundary(h, 3)
}

/// Tell which member a line with a given header maps to
pub fn member_of_header(header: &str) -> (r: StatDataMember)
    requires
        member_defined(bytes_of(header)),
    ensures
        r == member_of(bytes_of(header)),
{
    let h = header.as_bytes();
    let cpu: [u8; 3] = [99, 112, 117];
    let page: [u8; 4] = [112, 97, 103, 101];
    let swap: [u8; 4] = [115, 119, 97, 112];
    let intr: [u8; 4] = [105, 110, 116, 114];
    let ctxt: [u8; 4] = [99, 116, 120, 116];
    let btime: [u8; 5] = [98, 116, 105, 109, 101];
    let processes: [u8; 9] = [112, 114, 111, 99, 101, 115, 115, 101, 115];
    let procs_running: [u8; 13] = [112, 114, 111, 99, 115, 95, 114, 117, 110, 110, 105, 110, 103];
    let procs_blocked: [u8; 13] = [112, 114, 111, 99, 115, 95, 98, 108, 111, 99, 107, 101, 100];
    let softirq: [u8; 7] = [115, 111, 102, 116, 105, 114, 113];
    assert(cpu@ =~= cpu_tag());
    assert(page@ =~= page_tag());
    assert(swap@ =~= swap_tag());
    assert(intr@ =~= intr_tag());
    assert(ctxt@ =~= ctxt_tag());
    assert(btime@ =~= btime_tag());
    assert(processes@ =~= processes_tag());
    assert(procs_running@ =~= procs_tag() + running_tag());
    assert(procs_blocked@ =~= procs_tag() + blocked_tag());
    assert(softirq@ =~= softirq_tag());
    if bytes_equal(h, cpu.as_slice()) {
        StatDataMember::AllCPUs
    } else if starts_with_bytes(h, cpu.as_slice()) {
        StatDataMember::EachCPU
    } else if bytes_equal(h, page.as_slice()) {
        StatDataMember::Paging
    } else if bytes_equal(h, swap.as_slice()) {
        StatDataMember::Swapping
    } else if bytes_equal(h, intr.as_slice()) {
        StatDataMember::Interrupts
    } else if bytes_equal(h, ctxt.as_slice()) {
        StatDataMember::ContextSwitches
    } else if bytes_equal(h, btime.as_slice()) {
        StatDataMember::BootTime
    } else if bytes_equal(h, processes.as_slice()) {
        StatDataMember::ProcessForks
    } else if bytes_equal(h, procs_running.as_slice()) {
        StatDataMember::RunnableProcesses
    } else if bytes_equal(h, procs_blocked.as_slice()) {
        StatDataMember::BlockedProcesses
    } else if bytes_equal(h, softirq.as_slice()) {
        StatDataMember::SoftIRQs
    } else {
        StatDataMember::Unsupported
    }
}

/// Header of a line: its first word
pub open spec fn line_header(line: Seq<u8>) -> Seq<u8> {
    words(line)[0]
}

/// Statistical data of a line: the words after its header
pub open spec fn line_data(line: Seq<u8>) -> Seq<Seq<u8>> {
    words(line).drop_first()
}

/// Number of CPU timers announced by the last global CPU line before line i
pub open spec fn cpu_timers_before(ls: Seq<Seq<u8>>, i: int) -> int
    decreases i,
{
    if i <= 0 {
        0
    } else if member_of(line_header(ls[i - 1])) == StatDataMember::AllCPUs {
        (line_data(ls[i - 1]).len() as u8) as int
    } else {
        cpu_timers_before(ls, i - 1)
    }
}

/// Number of per-CPU entries before index i
pub open spec fn each_cpu_before(t: Seq<StatDataMember>, i: int) -> nat
    decreases i,
{
    if i <= 0 {
        0
    } else {
        each_cpu_before(t, i - 1) + if t[i - 1] == StatDataMember::EachCPU {
            1nat
        } else {
            0nat
        }
    }
}

/// Index of the part of a member that line i goes to: the number of the CPU
/// for per-CPU statistics, nothing otherwise
pub open spec fn slot_of(t: Seq<StatDataMember>, i: int) -> int {
    if t[i] == StatDataMember::EachCPU {
        each_cpu_before(t, i) as int
    } else {
        0
    }
}

/// Whether line j goes to part k of member m
pub open spec fn touches(t: Seq<StatDataMember>, j: int, m: StatDataMember, k: int) -> bool {
    t[j] == m && (m == StatDataMember::EachCPU ==> each_cpu_before(t, j) == k)
}

/// Whether line j is the last one that goes to its part of its member (the
/// one that the part is set up from)
pub open spec fn last_slot(t: Seq<StatDataMember>, j: int) -> bool {
    &&& 0 <= j < t.len()
    &&& forall|j2: int| j < j2 < t.len() ==> !#[trigger] touches(t, j2, t[j], slot_of(t, j))
}

/// Whether line j is the only one that goes to its part of its member
pub open spec fn unique_slot(t: Seq<StatDataMember>, j: int) -> bool {
    &&& 0 <= j < t.len()
    &&& forall|j2: int| 0 <= j2 < t.len() && j2 != j ==> !#[trigger] touches(t, j2, t[j], slot_of(t, j))
}

/// What a first sample of /proc/stat must hold for a data store to be set up
/// from it: a header on every line, of at least three bytes unless it is
/// "cpu"; per-CPU lines with as many timers as the last global CPU line;
/// and the data that interrupt and boot time lines are set up from.
pub open spec fn setup_ok(ls: Seq<Seq<u8>>) -> bool {
    forall|i: int| 0 <= i < ls.len() ==> #[trigger] setup_line_ok(ls, i)
}

pub open spec fn setup_line_ok(ls: Seq<Seq<u8>>, i: int) -> bool {
    let h = line_header(ls[i]);
    let d = line_data(ls[i]);
    &&& words(ls[i]).len() > 0
    &&& member_defined(h)
    &&& member_of(h) == StatDataMember::EachCPU ==> (d.len() as u8) as int == cpu_timers_before(ls, i)
    &&& member_of(h) == StatDataMember::Interrupts ==> d.len() >= 1
    &&& member_of(h) == StatDataMember::SoftIRQs ==> d.len() >= 1
    &&& member_of(h) == StatDataMember::BootTime ==> d.len() >= 1 && parse_i64_spec(d[0]) is Some
}

proof fn lemma_each_cpu_before_push(t: Seq<StatDataMember>, x: StatDataMember, i: int)
    requires
        0 <= i <= t.len(),
    ensures
        each_cpu_before(t.push(x), i) == each_cpu_before(t, i),
    decreases i,
{
    if i > 0 {
        lemma_each_cpu_before_push(t, x, i - 1);
        assert(t.push(x)[i - 1] == t[i - 1]);
    }
}

/// Every per-CPU slot below the number of per-CPU lines has its line
proof fn lemma_cpu_line_exists(t: Seq<StatDataMember>, n: int, m: int)
    requires
        0 <= n <= t.len(),
        0 <= m < each_cpu_before(t, n),
    ensures
        exists|i: int| 0 <= i < n && (#[trigger] t[i]) == StatDataMember::EachCPU && each_cpu_before(t, i) == m,
    decreases n,
{
    if each_cpu_before(t, n - 1) > m {
        lemma_cpu_line_exists(t, n - 1, m);
        let i = choose|i: int| 0 <= i < n - 1 && (#[trigger] t[i]) == StatDataMember::EachCPU && each_cpu_before(t, i) == m;
        assert(0 <= i < n && t[i] == StatDataMember::EachCPU && each_cpu_before(t, i) == m);
    } else {
        assert(t[n - 1] == StatDataMember::EachCPU && each_cpu_before(t, n - 1) == m);
    }
}

proof fn lemma_each_cpu_before_grows(t: Seq<StatDataMember>, i: int, j: int)
    requires
        0 <= i < j <= t.len(),
        t[i] == StatDataMember::EachCPU,
    ensures
        each_cpu_before(t, j) > each_cpu_before(t, i),
    decreases j,
{
    if j > i + 1 {
        lemma_each_cpu_before_grows(t, i, j - 1);
    }
}

proof fn lemma_member_push_contains(t: Seq<StatDataMember>, x: StatDataMember, k: StatDataMember)
    ensures
        t.push(x).contains(k) <==> (t.contains(k) || x == k),
{
    if t.contains(k) {
        let i = choose|i: int| 0 <= i < t.len() && t[i] == k;
        assert(t.push(x)[i] == k);
    }
    if x == k {
        assert(t.push(x)[t.len() as int] == k);
    }
    if t.push(x).contains(k) {
        let j = choose|j: int| 0 <= j < t.push(x).len() && t.push(x)[j] == k;
        if j < t.len() {
            assert(t[j] == k);
        }
    }
}

/// Data samples from /proc/stat, in structure-of-array layout
///
/// Courtesy of Linux's total lack of promises regarding the variability of
/// /proc/stat across hardware architectures, or even on a given system
/// depending on kernel configuration, most entries of this struct are
/// considered optional at this point...
#[derive(Debug, PartialEq)]
pub struct StatData {
    /// Total CPU usage stats, aggregated across all hardware threads
    pub all_cpus: Option<CPUStatData>,
    /// Per-CPU usage statistics, featuring one entry per hardware thread. An
    /// empty Vec here has the same meaning as a None in other entries: the
    /// per-thread breakdown of CPU usage was not provided by the kernel.
    pub each_cpu: Vec<CPUStatData>,
    /// Number of pages that the system paged in and out from disk, overall...
    pub paging: Option<PagingStatData>,
    /// ...and narrowing it down to swapping activity in particular
    pub swapping: Option<PagingStatData>,
    /// Statistics on the number of hardware interrupts that were serviced
    pub interrupts: Option<InterruptStatData>,
    /// Number of context switches that the system underwent since boot
    pub context_switches: Option<Vec<u64>>,
    /// Boot time, in seconds since the UNIX UTC epoch (only collected once)
    pub boot_time: Option<i64>,
    /// Number of process forks that occurred since boot
    pub process_forks: Option<Vec<u32>>,
    /// Number of processes in a runnable state (since Linux 2.5.45)
    pub runnable_processes: Option<Vec<u16>>,
    /// Number of processes blocked waiting for I/O (since Linux 2.5.45)
    pub blocked_processes: Option<Vec<u16>>,
    /// Statistics on the number of softirqs that were serviced. These use the
    /// same layout as hardware interrupt stats, where softirqs are enumerated
    /// in the same order as in /proc/softirq.
    pub softirqs: Option<InterruptStatData>,
    /// How each line of /proc/stat maps to the members of this struct, which
    /// assumes that the layout of /proc/stat does not change over the course
    /// of a series of sampling measurements.
    pub line_target: Vec<StatDataMember>,
    /// Number of clock ticks in one second, which CPU timings are counted in
    pub ticks_per_sec: u64,
}

impl StatData {
    /// Internal consistency of the store: each member exists exactly when a
    /// line of the file maps to it, there is one per-CPU entry for each
    /// per-CPU line, and each member is itself consistent.
    pub open spec fn wf(self) -> bool {
        let t = self.line_target@;
        &&& self.ticks_per_sec > 0
        &&& (self.all_cpus is Some <==> t.contains(StatDataMember::AllCPUs))
        &&& (self.all_cpus matches Some(c) ==> c.timers().wf() && c.ticks_per_sec
            == self.ticks_per_sec)
        &&& self.each_cpu@.len() == each_cpu_before(t, t.len() as int)
        &&& forall|m: int|
            0 <= m < self.each_cpu@.len() ==> (#[trigger] self.each_cpu@[m]).timers().wf()
                && self.each_cpu@[m].ticks_per_sec == self.ticks_per_sec
        &&& (self.paging is Some <==> t.contains(StatDataMember::Paging))
        &&& (self.paging matches Some(p) ==> p.incoming@.len() == p.outgoing@.len())
        &&& (self.swapping is Some <==> t.contains(StatDataMember::Swapping))
        &&& (self.swapping matches Some(p) ==> p.incoming@.len() == p.outgoing@.len())
        &&& (self.interrupts is Some <==> t.contains(StatDataMember::Interrupts))
        &&& (self.interrupts matches Some(x) ==> x.wf())
        &&& (self.context_switches is Some <==> t.contains(StatDataMember::ContextSwitches))
        &&& (self.boot_time is Some <==> t.contains(StatDataMember::BootTime))
        &&& (self.process_forks is Some <==> t.contains(StatDataMember::ProcessForks))
        &&& (self.runnable_processes is Some <==> t.contains(StatDataMember::RunnableProcesses))
        &&& (self.blocked_processes is Some <==> t.contains(StatDataMember::BlockedProcesses))
        &&& (self.softirqs is Some <==> t.contains(StatDataMember::SoftIRQs))
        &&& (self.softirqs matches Some(x) ==> x.wf())
    }

    /// Whether every member of the store holds `n` samples
    pub open spec fn all_lens(self, n: int) -> bool {
        &&& (self.all_cpus matches Some(c) ==> c.user_time@.len() == n)
        &&& forall|m: int|
            0 <= m < self.each_cpu@.len() ==> (#[trigger] self.each_cpu@[m]).user_time@.len() == n
        &&& (self.paging matches Some(p) ==> p.incoming@.len() == n)
        &&& (self.swapping matches Some(p) ==> p.incoming@.len() == n)
        &&& (self.interrupts matches Some(x) ==> x.total@.len() == n)
        &&& (self.context_switches matches Some(v) ==> v@.len() == n)
        &&& (self.process_forks matches Some(v) ==> v@.len() == n)
        &&& (self.runnable_processes matches Some(v) ==> v@.len() == n)
        &&& (self.blocked_processes matches Some(v) ==> v@.len() == n)
        &&& (self.softirqs matches Some(x) ==> x.total@.len() == n)
    }

    /// How part k of member m was set up from the statistical data `d` of a
    /// line of the first sample, `timers` being the number of CPU timers
    /// which per-CPU lines were set up with
    pub open spec fn set_up_from(self, m: StatDataMember, k: int, d: Seq<Seq<u8>>, timers: int) -> bool {
        match m {
            StatDataMember::AllCPUs => self.all_cpus matches Some(c) && c.timers().is_empty_for(
                (d.len() as u8) as int,
            ),
            StatDataMember::EachCPU => self.each_cpu@[k].timers().is_empty_for(timers),
            StatDataMember::Interrupts => self.interrupts matches Some(x) && x.details@.len() == ((
            d.len() - 1) as u16) as int,
            StatDataMember::SoftIRQs => self.softirqs matches Some(x) && x.details@.len() == ((
            d.len() - 1) as u16) as int,
            StatDataMember::BootTime => self.boot_time matches Some(b) && parse_i64_spec(d[0])
                == Some(b as int),
            _ => true,
        }
    }

    /// Whether part k of member m is the same in `self` and `o`
    pub open spec fn same_member(self, o: Self, m: StatDataMember, k: int) -> bool {
        match m {
            StatDataMember::AllCPUs => o.all_cpus == self.all_cpus,
            StatDataMember::EachCPU => 0 <= k < self.each_cpu@.len() ==> o.each_cpu@[k]
                == self.each_cpu@[k],
            StatDataMember::Paging => o.paging == self.paging,
            StatDataMember::Swapping => o.swapping == self.swapping,
            StatDataMember::Interrupts => o.interrupts == self.interrupts,
            StatDataMember::ContextSwitches => o.context_switches == self.context_switches,
            StatDataMember::BootTime => o.boot_time == self.boot_time,
            StatDataMember::ProcessForks => o.process_forks == self.process_forks,
            StatDataMember::RunnableProcesses => o.runnable_processes == self.runnable_processes,
            StatDataMember::BlockedProcesses => o.blocked_processes == self.blocked_processes,
            StatDataMember::SoftIRQs => o.softirqs == self.softirqs,
            StatDataMember::Unsupported => true,
        }
    }

    /// Tell whether a data store can be set up from a first sample of
    /// /proc/stat
    pub fn check_setup(initial_contents: &str) -> (r: bool)
        ensures
            r == setup_ok(lines(bytes_of(initial_contents))),
    {
        let mut file_lines = crate::splitter::SplitLinesBySpace::new(initial_contents);
        let ghost ls = lines(bytes_of(initial_contents));
        let ghost mut done: int = 0;
        let mut timers: u8 = 0;
        let cpu: [u8; 3] = [99, 112, 117];
        assert(cpu@ =~= cpu_tag());
        loop
            invariant
                file_lines.wf(),
                ls == lines(bytes_of(initial_contents)),
                cpu@ == cpu_tag(),
                0 <= done <= ls.len(),
                file_lines.remaining_lines() == ls.skip(done),
                timers as int == cpu_timers_before(ls, done),
                forall|i: int| 0 <= i < done ==> #[trigger] setup_line_ok(ls, i),
            ensures
                done == ls.len(),
            decreases ls.len() - done,
        {
            match file_lines.next() {
                Some(columns) => {
                    assert(ls.skip(done)[0] == ls[done]);
                    let ws = collect_words(columns);
                    let ghost w = words(ls[done]);
                    if ws.len() == 0 {
                        assert(!setup_line_ok(ls, done));
                        return false;
                    }
                    let h = ws[0];
                    let hb = h.as_bytes();
                    let defined = bytes_equal(hb, cpu.as_slice()) || (hb.len() >= 3 && (hb.len() == 3
                        || !(128u8 <= hb[3] && hb[3] < 192u8)));
                    if !defined {
                        assert(!setup_line_ok(ls, done));
                        return false;
                    }
                    let member = member_of_header(h);
                    let n = ws.len() - 1;
                    let ghost d = line_data(ls[done]);
                    assert(d.len() == n);
                    let ok = match member {
                        StatDataMember::EachCPU => n as u8 == timers,
                        StatDataMember::Interrupts => n >= 1,
                        StatDataMember::SoftIRQs => n >= 1,
                        StatDataMember::BootTime => n >= 1 && parse_i64_str(ws[1]).is_some(),
                        _ => true,
                    };
                    proof {
                        if n >= 1 {
                            assert(d[0] == w[1]);
                        }
                    }
                    if !ok {
                        assert(!setup_line_ok(ls, done));
                        return false;
                    }
                    assert(setup_line_ok(ls, done));
                    if member == StatDataMember::AllCPUs {
                        timers = n as u8;
                    }
                    proof {
                        assert(ls.skip(done + 1) =~= ls.skip(done).drop_first());
                        done = done + 1;
                    }
                },
                None => {
                    break;
                },
            }
        }
        true
    }

    /// Tell whether the words of a line hold the data that a member of the
    /// store records (for per-CPU statistics, those of the CPU numbered k)
    fn member_words_ok(&self, m: StatDataMember, k: usize, ws: &Vec<&str>, Ghost(w): Ghost<Seq<Seq<u8>>>) -> (r: bool)
        requires
            self.wf(),
            self.line_target@.contains(m),
            m == StatDataMember::EachCPU ==> k < self.each_cpu@.len(),
            w.len() >= 1,
            ws@.len() == w.len(),
            forall|j: int| 0 <= j < w.len() ==> bytes_of(#[trigger] ws@[j]) == w[j],
        ensures
            r == self.member_accepts(m, k as int, w.drop_first()),
    {
        let ghost d = w.drop_first();
        assert(w.skip(1) =~= d);
        let n = ws.len() - 1;
        proof {
            if n >= 1 {
                assert(d[0] == w[1]);
            }
            if n >= 2 {
                assert(d[1] == w[2]);
            }
        }
        match m {
            StatDataMember::AllCPUs => {
                let timers = self.all_cpus.as_ref().unwrap().num_timers();
                counters_from(ws, 1, timers, Ghost(w))
            },
            StatDataMember::EachCPU => {
                let timers = self.each_cpu[k].num_timers();
                counters_from(ws, 1, timers, Ghost(w))
            },
            StatDataMember::Paging => counters_from(ws, 1, 2, Ghost(w)),
            StatDataMember::Swapping => counters_from(ws, 1, 2, Ghost(w)),
            StatDataMember::Interrupts => {
                let details = self.interrupts.as_ref().unwrap().details.len();
                n > details && counters_from(ws, 1, details + 1, Ghost(w))
            },
            StatDataMember::SoftIRQs => {
                let details = self.softirqs.as_ref().unwrap().details.len();
                n > details && counters_from(ws, 1, details + 1, Ghost(w))
            },
            StatDataMember::ContextSwitches => n >= 1 && parse_unsigned_str(ws[1], u64::MAX).is_some(),
            StatDataMember::ProcessForks => n >= 1 && parse_unsigned_str(ws[1], 0xFFFF_FFFF).is_some(),
            StatDataMember::RunnableProcesses => n >= 1 && parse_unsigned_str(ws[1], 0xFFFF).is_some(),
            StatDataMember::BlockedProcesses => n >= 1 && parse_unsigned_str(ws[1], 0xFFFF).is_some(),
            _ => true,
        }
    }

    /// Tell whether a new sample of /proc/stat can be added to the store
    pub fn check_sample(&self, file_contents: &str) -> (r: bool)
        requires
            self.wf(),
        ensures
            r == self.sample_ok(lines(bytes_of(file_contents))),
    {
        let n = self.line_target.len();
        match &self.interrupts {
            Some(x) => {
                if x.total.len() >= usize::MAX - n {
                    return false;
                }
            },
            None => {},
        }
        match &self.softirqs {
            Some(x) => {
                if x.total.len() >= usize::MAX - n {
                    return false;
                }
            },
            None => {},
        }
        let mut file_lines = crate::splitter::SplitLinesBySpace::new(file_contents);
        let ghost ls = lines(bytes_of(file_contents));
        let ghost t = self.line_target@;
        let mut i: usize = 0;
        let mut slot: usize = 0;
        while i < n
            invariant_except_break
                i <= ls.len(),
                file_lines.remaining_lines() == ls.skip(i as int),
            invariant
                file_lines.wf(),
                ls == lines(bytes_of(file_contents)),
                self.wf(),
                t == self.line_target@,
                n == t.len(),
                i <= n,
                slot == each_cpu_before(t, i as int),
                forall|j: int| 0 <= j < i && j < ls.len() ==> #[trigger] self.sample_line_ok(j, ls[j]),
            ensures
                forall|j: int| 0 <= j < n && j < ls.len() ==> #[trigger] self.sample_line_ok(j, ls[j]),
            decreases n - i,
        {
            match file_lines.next() {
                Some(columns) => {
                    assert(ls.skip(i as int)[0] == ls[i as int]);
                    let ws = collect_words(columns);
                    let m = self.line_target[i];
                    assert(t.contains(m));
                    if m != StatDataMember::BootTime && m != StatDataMember::Unsupported {
                        if ws.len() == 0 {
                            assert(!self.sample_line_ok(i as int, ls[i as int]));
                            return false;
                        }
                        proof {
                            if m == StatDataMember::EachCPU {
                                lemma_each_cpu_before_grows(t, i as int, t.len() as int);
                            }
                        }
                        if !self.member_words_ok(m, slot, &ws, Ghost(words(ls[i as int]))) {
                            assert(!self.sample_line_ok(i as int, ls[i as int]));
                            return false;
                        }
                    }
                    proof {
                        assert(ls.skip(i + 1) =~= ls.skip(i as int).drop_first());
                        if m == StatDataMember::EachCPU {
                            lemma_each_cpu_before_grows(t, i as int, t.len() as int);
                        }
                    }
                    if m == StatDataMember::EachCPU {
                        assert(slot < self.each_cpu.len());
                        slot = slot + 1;
                    }
                    i = i + 1;
                },
                None => {
                    break;
                },
            }
        }
        true
    }

    /// Create a new statistical data store, using a first sample to know the
    /// structure of /proc/stat on this system, and the number of clock ticks
    /// in one second to interpret CPU timings.
    #[verifier::rlimit(50)]
    pub fn new(initial_contents: &str, ticks_per_sec: u64) -> (r: Self)
        requires
            ticks_per_sec > 0,
            setup_ok(lines(bytes_of(initial_contents))),
        ensures
            ({
                let ls = lines(bytes_of(initial_contents));
                let t = r.line_target@;
                &&& r.wf()
                &&& r.ticks_per_sec == ticks_per_sec
                &&& r.all_lens(0)
                &&& t.len() == ls.len()
                &&& forall|i: int| 0 <= i < ls.len() ==> #[trigger] t[i] == member_of(line_header(ls[i]))
                &&& forall|i: int|
                    #![trigger t[i]]
                    last_slot(t, i) ==> r.set_up_from(t[i], slot_of(t, i), line_data(ls[i]), cpu_timers_before(ls, i))
            }),
    {
        let ghost ls = lines(bytes_of(initial_contents));
        let mut data = StatData {
            all_cpus: None,
            each_cpu: Vec::new(),
            paging: None,
            swapping: None,
            interrupts: None,
            context_switches: None,
            boot_time: None,
            process_forks: None,
            runnable_processes: None,
            blocked_processes: None,
            softirqs: None,
            line_target: Vec::new(),
            ticks_per_sec,
        };
        let mut num_cpu_timers: u8 = 0;
        let mut file_lines = SplitLinesBySpace::new(initial_contents);
        assert(data.set_up_upto(ls, 0)) by {
            reveal(StatData::set_up_upto);
        }
        let ghost mut i: int = 0;
        loop
            invariant
                file_lines.wf(),
                0 <= i <= ls.len(),
                file_lines.remaining_lines() == ls.skip(i),
                setup_ok(ls),
                num_cpu_timers as int == cpu_timers_before(ls, i),
                data.wf(),
                data.ticks_per_sec == ticks_per_sec,
                data.all_lens(0),
                data.line_target@.len() == i,
                forall|j: int| 0 <= j < i ==> #[trigger] data.line_target@[j] == member_of(line_header(ls[j])),
                data.set_up_upto(ls, i),
            ensures
                i == ls.len(),
            decreases ls.len() - i,
        {
            if !file_lines.next_line() {
                break;
            }
            proof {
                assert(ls.skip(i)[0] == ls[i]);
                assert(setup_line_ok(ls, i));
            }
            let header = file_lines.next().unwrap();
            let member = member_of_header(header);
            data.set_up_member(member, &mut file_lines, &mut num_cpu_timers, Ghost(ls), Ghost(i));
            proof {
                assert(ls.skip(i + 1) =~= ls.skip(i).drop_first());
                i = i + 1;
            }
        }
        assert forall|i: int|
            #![trigger data.line_target@[i]]
            last_slot(data.line_target@, i) implies data.set_up_from(
            data.line_target@[i],
            slot_of(data.line_target@, i),
            line_data(ls[i]),
            cpu_timers_before(ls, i),
        ) by {
            reveal(StatData::set_up_upto);
        }
        data
    }

    /// Set up the member that the current line maps to, from the rest of
    /// the line (after its header)
    fn set_up_member(
        &mut self,
        member: StatDataMember,
        file_lines: &mut SplitLinesBySpace,
        num_cpu_timers: &mut u8,
        Ghost(ls): Ghost<Seq<Seq<u8>>>,
        Ghost(i): Ghost<int>,
    )
        requires
            0 <= i < ls.len(),
            setup_line_ok(ls, i),
            member == member_of(line_header(ls[i])),
            *old(num_cpu_timers) as int == cpu_timers_before(ls, i),
            old(file_lines).wf(),
            old(file_lines).is_inside_line(),
            old(file_lines).line_words() == line_data(ls[i]),
            old(self).wf(),
            old(self).all_lens(0),
            old(self).line_target@.len() == i,
            forall|j: int| 0 <= j < i ==> #[trigger] old(self).line_target@[j] == member_of(line_header(ls[j])),
            old(self).set_up_upto(ls, i),
        ensures
            final(self).line_target@ == old(self).line_target@.push(member),
            final(self).ticks_per_sec == old(self).ticks_per_sec,
            *final(num_cpu_timers) as int == cpu_timers_before(ls, i + 1),
            final(file_lines).wf(),
            final(file_lines).text() == old(file_lines).text(),
            final(file_lines).remaining_lines() == old(file_lines).remaining_lines(),
            final(self).wf(),
            final(self).all_lens(0),
            forall|j: int| 0 <= j < i + 1 ==> #[trigger] final(self).line_target@[j] == member_of(line_header(ls[j])),
            final(self).set_up_upto(ls, i + 1),
    {
        let ghost d = line_data(ls[i]);
        let ghost old_self = *self;
        let ticks_per_sec = self.ticks_per_sec;
        proof {
            file_lines.lemma_line_words_len();
        }
        match member {
            StatDataMember::AllCPUs => {
                *num_cpu_timers = file_lines.word_count() as u8;
                self.all_cpus = Some(CPUStatData::new(*num_cpu_timers, ticks_per_sec));
            },
            StatDataMember::EachCPU => {
                self.each_cpu.push(CPUStatData::new(*num_cpu_timers, ticks_per_sec));
            },
            StatDataMember::Paging => {
                self.paging = Some(PagingStatData::new());
            },
            StatDataMember::Swapping => {
                self.swapping = Some(PagingStatData::new());
            },
            StatDataMember::Interrupts => {
                let num_interrupts = (file_lines.word_count() - 1) as u16;
                self.interrupts = Some(InterruptStatData::new(num_interrupts));
            },
            StatDataMember::ContextSwitches => {
                self.context_switches = Some(Vec::new());
            },
            StatDataMember::BootTime => {
                let btime_str = file_lines.next().unwrap();
                self.boot_time = Some(parse_i64_str(btime_str).unwrap());
            },
            StatDataMember::ProcessForks => {
                self.process_forks = Some(Vec::new());
            },
            StatDataMember::RunnableProcesses => {
                self.runnable_processes = Some(Vec::new());
            },
            StatDataMember::BlockedProcesses => {
                self.blocked_processes = Some(Vec::new());
            },
            StatDataMember::SoftIRQs => {
                let num_interrupts = (file_lines.word_count() - 1) as u16;
                self.softirqs = Some(InterruptStatData::new(num_interrupts));
            },
            StatDataMember::Unsupported => {},
        }
        let ghost mid = *self;
        proof {
            assert forall|m2: StatDataMember, k2: int| m2 != member implies #[trigger] old_self.same_member(mid, m2, k2) by {}
        }
        self.line_target.push(member);
        proof {
            assert forall|m2: StatDataMember, k2: int| m2 != member implies #[trigger] old_self.same_member(*self, m2, k2) by {
                assert(old_self.same_member(mid, m2, k2));
            }
            Self::lemma_setup_step(old_self, *self, ls, i, member);
            reveal(StatData::set_up_upto);
            let t2 = self.line_target@;
            assert forall|j: int|
                #![trigger t2[j]]
                0 <= j < i + 1 && (forall|j2: int| j < j2 < i + 1 ==> !#[trigger] touches(t2, j2, t2[j], slot_of(t2, j)))
                implies self.set_up_from(t2[j], slot_of(t2, j), line_data(ls[j]), cpu_timers_before(ls, j)) by {
                Self::lemma_setup_keeps_shape(old_self, *self, ls, i, member, j);
            }
        }
    }

    /// Whether each part of a member that one of the first i lines of a first
    /// sample goes to was set up from the last such line
    #[verifier::opaque]
    pub open spec fn set_up_upto(self, ls: Seq<Seq<u8>>, i: int) -> bool {
        let t = self.line_target@;
        forall|j: int|
            #![trigger t[j]]
            0 <= j < i && (forall|j2: int| j < j2 < i ==> !#[trigger] touches(t, j2, t[j], slot_of(t, j)))
                ==> self.set_up_from(t[j], slot_of(t, j), line_data(ls[j]), cpu_timers_before(ls, j))
    }

    /// Whether part k of member m was just set up from the statistical data
    /// `d` of a line, and holds no sample
    pub open spec fn fresh_member(self, m: StatDataMember, k: int, d: Seq<Seq<u8>>, timers: int) -> bool {
        &&& self.set_up_from(m, k, d, timers)
        &&& match m {
            StatDataMember::AllCPUs => self.all_cpus matches Some(c) && c.timers().wf()
                && c.ticks_per_sec == self.ticks_per_sec && c.user_time@.len() == 0,
            StatDataMember::EachCPU => 0 <= k < self.each_cpu@.len() && self.each_cpu@[k].timers().wf()
                && self.each_cpu@[k].ticks_per_sec == self.ticks_per_sec
                && self.each_cpu@[k].user_time@.len() == 0,
            StatDataMember::Paging => self.paging matches Some(p) && p.incoming@.len() == 0
                && p.outgoing@.len() == 0,
            StatDataMember::Swapping => self.swapping matches Some(p) && p.incoming@.len() == 0
                && p.outgoing@.len() == 0,
            StatDataMember::Interrupts => self.interrupts matches Some(x) && x.wf() && x.total@.len()
                == 0,
            StatDataMember::ContextSwitches => self.context_switches matches Some(v) && v@.len() == 0,
            StatDataMember::BootTime => self.boot_time is Some,
            StatDataMember::ProcessForks => self.process_forks matches Some(v) && v@.len() == 0,
            StatDataMember::RunnableProcesses => self.runnable_processes matches Some(v) && v@.len()
                == 0,
            StatDataMember::BlockedProcesses => self.blocked_processes matches Some(v) && v@.len()
                == 0,
            StatDataMember::SoftIRQs => self.softirqs matches Some(x) && x.wf() && x.total@.len() == 0,
            StatDataMember::Unsupported => true,
        }
    }

    /// Setting up the member for the i-th line of a first sample keeps the
    /// store consistent, with one more line mapped
    #[verifier::rlimit(50)]
    proof fn lemma_setup_step(old: Self, new: Self, ls: Seq<Seq<u8>>, i: int, m: StatDataMember)
        requires
            0 <= i < ls.len(),
            m == member_of(line_header(ls[i])),
            old.wf(),
            old.all_lens(0),
            old.line_target@.len() == i,
            forall|j: int| 0 <= j < i ==> #[trigger] old.line_target@[j] == member_of(line_header(ls[j])),
            new.line_target@ == old.line_target@.push(m),
            new.ticks_per_sec == old.ticks_per_sec,
            forall|m2: StatDataMember, k2: int| m2 != m ==> #[trigger] old.same_member(new, m2, k2),
            m == StatDataMember::EachCPU ==> new.each_cpu@.len() == old.each_cpu@.len() + 1
                && forall|k2: int| 0 <= k2 < old.each_cpu@.len() ==> #[trigger] new.each_cpu@[k2] == old.each_cpu@[k2],
            m != StatDataMember::EachCPU ==> new.each_cpu@.len() == old.each_cpu@.len(),
            new.fresh_member(m, each_cpu_before(old.line_target@, i) as int, line_data(ls[i]), cpu_timers_before(ls, i)),
        ensures
            new.wf(),
            new.all_lens(0),
            forall|j: int| 0 <= j < i + 1 ==> #[trigger] new.line_target@[j] == member_of(line_header(ls[j])),
    {
        let t = old.line_target@;
        let t2 = new.line_target@;
        lemma_member_push_contains(t, m, StatDataMember::AllCPUs);
        lemma_member_push_contains(t, m, StatDataMember::Paging);
        lemma_member_push_contains(t, m, StatDataMember::Swapping);
        lemma_member_push_contains(t, m, StatDataMember::Interrupts);
        lemma_member_push_contains(t, m, StatDataMember::ContextSwitches);
        lemma_member_push_contains(t, m, StatDataMember::BootTime);
        lemma_member_push_contains(t, m, StatDataMember::ProcessForks);
        lemma_member_push_contains(t, m, StatDataMember::RunnableProcesses);
        lemma_member_push_contains(t, m, StatDataMember::BlockedProcesses);
        lemma_member_push_contains(t, m, StatDataMember::SoftIRQs);
        lemma_each_cpu_before_push(t, m, i);
        assert(each_cpu_before(t2, i + 1) == each_cpu_before(t, i) + if m == StatDataMember::EachCPU { 1int } else { 0 });
        assert(old.same_member(new, StatDataMember::AllCPUs, 0) || m == StatDataMember::AllCPUs);
        assert(old.same_member(new, StatDataMember::Paging, 0) || m == StatDataMember::Paging);
        assert(old.same_member(new, StatDataMember::Swapping, 0) || m == StatDataMember::Swapping);
        assert(old.same_member(new, StatDataMember::Interrupts, 0) || m == StatDataMember::Interrupts);
        assert(old.same_member(new, StatDataMember::ContextSwitches, 0) || m == StatDataMember::ContextSwitches);
        assert(old.same_member(new, StatDataMember::BootTime, 0) || m == StatDataMember::BootTime);
        assert(old.same_member(new, StatDataMember::ProcessForks, 0) || m == StatDataMember::ProcessForks);
        assert(old.same_member(new, StatDataMember::RunnableProcesses, 0) || m == StatDataMember::RunnableProcesses);
        assert(old.same_member(new, StatDataMember::BlockedProcesses, 0) || m == StatDataMember::BlockedProcesses);
        assert(old.same_member(new, StatDataMember::SoftIRQs, 0) || m == StatDataMember::SoftIRQs);
        assert forall|k: int| 0 <= k < new.each_cpu@.len() implies (#[trigger] new.each_cpu@[k]).timers().wf()
            && new.each_cpu@[k].ticks_per_sec == new.ticks_per_sec && new.each_cpu@[k].user_time@.len() == 0 by {
            if k < old.each_cpu@.len() {
                assert(old.same_member(new, StatDataMember::EachCPU, k) || m == StatDataMember::EachCPU);
            }
        }
        assert forall|j: int| 0 <= j < i + 1 implies #[trigger] t2[j] == member_of(line_header(ls[j])) by {
            if j < i {
                assert(t2[j] == t[j]);
            }
        }
    }

    /// The member part of a line which no later line maps to keeps the shape
    /// that it was set up with
    proof fn lemma_setup_keeps_shape(old: Self, new: Self, ls: Seq<Seq<u8>>, i: int, m: StatDataMember, j: int)
        requires
            0 <= j <= i < ls.len(),
            old.wf(),
            old.line_target@.len() == i,
            old.set_up_upto(ls, i),
            new.line_target@ == old.line_target@.push(m),
            forall|m2: StatDataMember, k2: int| m2 != m ==> #[trigger] old.same_member(new, m2, k2),
            m == StatDataMember::EachCPU ==> forall|k2: int| 0 <= k2 < old.each_cpu@.len() ==> #[trigger] new.each_cpu@[k2] == old.each_cpu@[k2],
            new.fresh_member(m, each_cpu_before(old.line_target@, i) as int, line_data(ls[i]), cpu_timers_before(ls, i)),
            forall|j2: int| j < j2 < i + 1 ==> !#[trigger] touches(new.line_target@, j2, new.line_target@[j], slot_of(new.line_target@, j)),
        ensures
            new.set_up_from(new.line_target@[j], slot_of(new.line_target@, j), line_data(ls[j]), cpu_timers_before(ls, j)),
    {
        reveal(StatData::set_up_upto);
        let t = old.line_target@;
        let t2 = new.line_target@;
        if j < i {
            assert(t2[j] == t[j]);
            lemma_each_cpu_before_push(t, m, j);
            assert(slot_of(t2, j) == slot_of(t, j));
            assert forall|j2: int| j < j2 < i implies !#[trigger] touches(t, j2, t[j], slot_of(t, j)) by {
                assert(t2[j2] == t[j2]);
                lemma_each_cpu_before_push(t, m, j2);
                assert(!touches(t2, j2, t2[j], slot_of(t2, j)));
            }
            assert(old.set_up_from(t[j], slot_of(t, j), line_data(ls[j]), cpu_timers_before(ls, j)));
            if t[j] == StatDataMember::EachCPU {
                lemma_each_cpu_before_grows(t, j, i);
                let k = slot_of(t, j);
                assert(old.each_cpu@.len() == each_cpu_before(t, i));
                assert(k == each_cpu_before(t, j));
                assert(k < old.each_cpu@.len());
                if m == StatDataMember::EachCPU {
                    assert(new.each_cpu@[k] == old.each_cpu@[k]);
                } else {
                    assert(old.same_member(new, StatDataMember::EachCPU, k));
                }
            } else {
                assert(!touches(t2, i, t2[j], slot_of(t2, j)));
                assert(m != t[j]);
                assert(old.same_member(new, t[j], slot_of(t, j)));
            }
        } else {
            assert(t2[i] == m);
            lemma_each_cpu_before_push(t, m, i);
            assert(slot_of(t2, i) == each_cpu_before(t, i) || m != StatDataMember::EachCPU);
        }
    }
}


impl StatData {
    /// Whether part k of member m can record the statistical data `d`
    pub open spec fn member_accepts(self, m: StatDataMember, k: int, d: Seq<Seq<u8>>) -> bool {
        match m {
            StatDataMember::AllCPUs => self.all_cpus->0.accepts(d),
            StatDataMember::EachCPU => self.each_cpu@[k].accepts(d),
            StatDataMember::Paging => self.paging->0.accepts(d),
            StatDataMember::Swapping => self.swapping->0.accepts(d),
            StatDataMember::Interrupts => self.interrupts->0.accepts(d),
            StatDataMember::ContextSwitches => self.context_switches->0.accepts(d),
            StatDataMember::ProcessForks => self.process_forks->0.accepts(d),
            StatDataMember::RunnableProcesses => self.runnable_processes->0.accepts(d),
            StatDataMember::BlockedProcesses => self.blocked_processes->0.accepts(d),
            StatDataMember::SoftIRQs => self.softirqs->0.accepts(d),
            _ => true,
        }
    }

    /// What the i-th line of a new sample must hold to be recorded: boot time
    /// and unsupported lines are skipped, others have a header followed by
    /// the data that their member records
    pub open spec fn sample_line_ok(self, i: int, line: Seq<u8>) -> bool {
        let t = self.line_target@;
        t[i] == StatDataMember::BootTime || t[i] == StatDataMember::Unsupported || (words(line).len()
            >= 1 && self.member_accepts(t[i], slot_of(t, i), line_data(line)))
    }

    /// What a new sample of /proc/stat must hold to be added to the store:
    /// lines that can be recorded, up to the number of lines of the first
    /// sample; and room for the interrupt counts.
    pub open spec fn sample_ok(self, ls: Seq<Seq<u8>>) -> bool {
        let t = self.line_target@;
        &&& forall|i: int| 0 <= i < t.len() && i < ls.len() ==> #[trigger] self.sample_line_ok(i, ls[i])
        &&& (self.interrupts matches Some(x) ==> x.total@.len() + t.len() < usize::MAX)
        &&& (self.softirqs matches Some(x) ==> x.total@.len() + t.len() < usize::MAX)
    }

    /// Whether `o` has the same layout as `self`
    pub open spec fn same_shape(self, o: Self) -> bool {
        &&& o.line_target@ == self.line_target@
        &&& o.ticks_per_sec == self.ticks_per_sec
        &&& o.each_cpu@.len() == self.each_cpu@.len()
        &&& (self.all_cpus matches Some(c) ==> o.all_cpus matches Some(c2) && c2.timers().timer_count()
            == c.timers().timer_count())
        &&& forall|m: int|
            0 <= m < self.each_cpu@.len() ==> (#[trigger] o.each_cpu@[m]).timers().timer_count()
                == self.each_cpu@[m].timers().timer_count()
        &&& (self.interrupts matches Some(x) ==> o.interrupts matches Some(x2) && x2.details@.len()
            == x.details@.len())
        &&& (self.softirqs matches Some(x) ==> o.softirqs matches Some(x2) && x2.details@.len()
            == x.details@.len())
    }

    /// Whether `o` holds one more sample than `self` in part k of member m,
    /// made of the statistical data `d` of a line
    pub open spec fn pushed_member(self, o: Self, m: StatDataMember, k: int, d: Seq<Seq<u8>>) -> bool {
        let tps = self.ticks_per_sec as int;
        match m {
            StatDataMember::AllCPUs => self.all_cpus matches Some(c) && o.all_cpus matches Some(c2)
                && c.timers().pushed(c2.timers(), d, tps),
            StatDataMember::EachCPU => self.each_cpu@[k].timers().pushed(o.each_cpu@[k].timers(), d, tps),
            StatDataMember::Paging => self.paging matches Some(p) && o.paging matches Some(p2)
                && p2.incoming@ == p.incoming@.push(u64_value(d[0])) && p2.outgoing@ == p.outgoing@.push(
                u64_value(d[1]),
            ),
            StatDataMember::Swapping => self.swapping matches Some(p) && o.swapping matches Some(p2)
                && p2.incoming@ == p.incoming@.push(u64_value(d[0])) && p2.outgoing@ == p.outgoing@.push(
                u64_value(d[1]),
            ),
            StatDataMember::Interrupts => self.interrupts matches Some(x) && o.interrupts matches Some(x2)
                && x.pushed(x2, d),
            StatDataMember::ContextSwitches => self.context_switches matches Some(v)
                && o.context_switches matches Some(v2) && v2@ == v@.push(u64_value(d[0])),
            StatDataMember::BootTime => o.boot_time == self.boot_time,
            StatDataMember::ProcessForks => self.process_forks matches Some(v) && o.process_forks matches Some(
                v2,
            ) && v2@ == v@.push(parse_unsigned(d[0], u32::MAX as int)->0 as u32),
            StatDataMember::RunnableProcesses => self.runnable_processes matches Some(v)
                && o.runnable_processes matches Some(v2) && v2@ == v@.push(
                parse_unsigned(d[0], u16::MAX as int)->0 as u16,
            ),
            StatDataMember::BlockedProcesses => self.blocked_processes matches Some(v)
                && o.blocked_processes matches Some(v2) && v2@ == v@.push(
                parse_unsigned(d[0], u16::MAX as int)->0 as u16,
            ),
            StatDataMember::SoftIRQs => self.softirqs matches Some(x) && o.softirqs matches Some(x2)
                && x.pushed(x2, d),
            StatDataMember::Unsupported => true,
        }
    }

    /// Whether `o` only differs from `self` in part k of member m
    pub open spec fn same_except(self, o: Self, m: StatDataMember, k: int) -> bool {
        &&& o.each_cpu@.len() == self.each_cpu@.len()
        &&& forall|m2: StatDataMember|
            m2 != m && m2 != StatDataMember::EachCPU ==> #[trigger] self.same_member(o, m2, 0)
        &&& forall|k2: int|
            0 <= k2 < self.each_cpu@.len() && (m != StatDataMember::EachCPU || k2 != k) ==> #[trigger] o.each_cpu@[k2]
                == self.each_cpu@[k2]
    }

    /// Record the rest of the current line (after its header) into part k
    /// of member `target`
    #[verifier::spinoff_prover]
    #[verifier::rlimit(20)]
    fn push_line(
        &mut self,
        file_lines: &mut SplitLinesBySpace,
        target: StatDataMember,
        cpu_index: usize,
        Ghost(i): Ghost<int>,
        Ghost(line): Ghost<Seq<u8>>,
    )
        requires
            old(self).wf(),
            0 <= i < old(self).line_target@.len(),
            target == old(self).line_target@[i],
            target == StatDataMember::EachCPU ==> cpu_index == slot_of(old(self).line_target@, i)
                && cpu_index < old(self).each_cpu@.len(),
            old(self).sample_line_ok(i, line),
            old(file_lines).wf(),
            target != StatDataMember::BootTime && target != StatDataMember::Unsupported ==> old(
                file_lines,
            ).is_inside_line() && old(file_lines).line_words() == line_data(line),
            target == StatDataMember::Interrupts ==> old(self).interrupts->0.total@.len() < usize::MAX,
            target == StatDataMember::SoftIRQs ==> old(self).softirqs->0.total@.len() < usize::MAX,
        ensures
            final(self).wf(),
            old(self).same_shape(*final(self)),
            old(self).same_except(*final(self), target, slot_of(old(self).line_target@, i)),
            old(self).pushed_member(*final(self), target, slot_of(old(self).line_target@, i), line_data(line)),
            final(file_lines).wf(),
            final(file_lines).text() == old(file_lines).text(),
            final(file_lines).remaining_lines() == old(file_lines).remaining_lines(),
    {
        let ghost old_self = *self;
        let ghost k = slot_of(old_self.line_target@, i);
        match target {
            StatDataMember::AllCPUs => {
                let mut c = self.all_cpus.take().unwrap();
                c.push(file_lines);
                self.all_cpus = Some(c);
            },
            StatDataMember::EachCPU => {
                self.each_cpu[cpu_index].push(file_lines);
                assert(self.each_cpu@ =~= old_self.each_cpu@.update(
                    cpu_index as int,
                    self.each_cpu@[cpu_index as int],
                ));
            },
            StatDataMember::Paging => {
                let mut p = self.paging.take().unwrap();
                p.push(file_lines);
                self.paging = Some(p);
            },
            StatDataMember::Swapping => {
                let mut p = self.swapping.take().unwrap();
                p.push(file_lines);
                self.swapping = Some(p);
            },
            StatDataMember::Interrupts => {
                let mut x = self.interrupts.take().unwrap();
                x.push(file_lines);
                self.interrupts = Some(x);
            },
            StatDataMember::ContextSwitches => {
                let mut v = self.context_switches.take().unwrap();
                StatDataStore::push(&mut v, file_lines);
                self.context_switches = Some(v);
            },
            StatDataMember::ProcessForks => {
                let mut v = self.process_forks.take().unwrap();
                StatDataStore::push(&mut v, file_lines);
                self.process_forks = Some(v);
            },
            StatDataMember::RunnableProcesses => {
                let mut v = self.runnable_processes.take().unwrap();
                StatDataStore::push(&mut v, file_lines);
                self.runnable_processes = Some(v);
            },
            StatDataMember::BlockedProcesses => {
                let mut v = self.blocked_processes.take().unwrap();
                StatDataStore::push(&mut v, file_lines);
                self.blocked_processes = Some(v);
            },
            StatDataMember::SoftIRQs => {
                let mut x = self.softirqs.take().unwrap();
                x.push(file_lines);
                self.softirqs = Some(x);
            },
            StatDataMember::BootTime | StatDataMember::Unsupported => {},
        }
        proof {
            assert forall|m2: StatDataMember|
                m2 != target && m2 != StatDataMember::EachCPU implies #[trigger] old_self.same_member(*self, m2, 0) by {}
        }
    }
}


impl StatData {
    /// Parse the contents of /proc/stat and add a data sample to all
    /// corresponding entries in the internal data store.
    ///
    /// Lines are matched with the members that the lines of the first sample
    /// mapped to, as far as both samples go. Each member receives the data of
    /// the line that maps to it; the n-th per-CPU line goes to the n-th CPU.
    pub fn push(&mut self, file_contents: &str)
        requires
            old(self).wf(),
            old(self).sample_ok(lines(bytes_of(file_contents))),
        ensures
            ({
                let ls = lines(bytes_of(file_contents));
                let t = old(self).line_target@;
                let n = if t.len() < ls.len() { t.len() as int } else { ls.len() as int };
                &&& final(self).wf()
                &&& old(self).same_shape(*final(self))
                &&& forall|j: int|
                    #![trigger t[j]]
                    0 <= j < n && unique_slot(t, j) ==> old(self).pushed_member(
                        *final(self),
                        t[j],
                        slot_of(t, j),
                        line_data(ls[j]),
                    )
                &&& forall|m: StatDataMember|
                    m != StatDataMember::EachCPU && (forall|j: int| 0 <= j < n ==> #[trigger] t[j] != m)
                        ==> #[trigger] old(self).same_member(*final(self), m, 0)
                &&& forall|k: int|
                    each_cpu_before(t, n) <= k < old(self).each_cpu@.len() ==> #[trigger] final(self).each_cpu@[k]
                        == old(self).each_cpu@[k]
                &&& exists|steps: Seq<Self>|
                    #[trigger] line_chain(steps, t, ls) && steps[0] == *old(self) && steps.last()
                        == *final(self)
                &&& (ls.len() >= t.len() && old(self).slots_distinct()) ==> forall|k: int|
                    #![trigger old(self).all_lens(k)]
                    old(self).all_lens(k) ==> final(self).all_lens(k + 1) && (has_member(*old(self))
                        ==> stored_len(*final(self)) == stored_len(*old(self)) + 1)
            }),
    {
        let ghost ls = lines(bytes_of(file_contents));
        let ghost t = self.line_target@;
        let ghost start = *self;
        let ghost mut steps: Seq<Self> = seq![*self];
        let mut file_lines = SplitLinesBySpace::new(file_contents);
        let n = self.line_target.len();
        let mut i: usize = 0;
        let mut cpu_index: usize = 0;
        loop
            invariant
                start == *old(self),
                start.wf(),
                start.sample_ok(ls),
                t == start.line_target@,
                n == t.len(),
                0 <= i <= n,
                i <= ls.len(),
                cpu_index == each_cpu_before(t, i as int),
                steps.len() == i + 1,
                steps[0] == start,
                steps[i as int] == *self,
                forall|j: int|
                    0 <= j < i ==> #[trigger] steps[j].line_step(
                        steps[j + 1],
                        t[j],
                        slot_of(t, j),
                        line_data(ls[j]),
                    ),
                file_lines.wf(),
                file_lines.remaining_lines() == ls.skip(i as int),
                self.wf(),
                start.same_shape(*self),
                self.interrupts matches Some(x) ==> x.total@.len() <= start.interrupts->0.total@.len() + i,
                self.softirqs matches Some(x) ==> x.total@.len() <= start.softirqs->0.total@.len() + i,
                forall|j: int|
                    #![trigger t[j]]
                    0 <= j < i && unique_slot(t, j) ==> start.pushed_member(*self, t[j], slot_of(t, j), line_data(ls[j])),
                forall|m: StatDataMember|
                    m != StatDataMember::EachCPU && (forall|j: int| 0 <= j < i ==> #[trigger] t[j] != m)
                        ==> #[trigger] start.same_member(*self, m, 0),
                forall|k: int|
                    cpu_index <= k < start.each_cpu@.len() ==> #[trigger] self.each_cpu@[k] == start.each_cpu@[k],
            ensures
                i == n || i == ls.len(),
            decreases n - i,
        {
            if i >= n {
                break;
            }
            if !file_lines.next_line() {
                break;
            }
            proof {
                assert(ls.skip(i as int)[0] == ls[i as int]);
                assert(start.sample_line_ok(i as int, ls[i as int]));
            }
            let _header = file_lines.next();
            let target = self.line_target[i];
            let num_cpus = self.each_cpu.len();
            let ghost prev = *self;
            proof {
                if target == StatDataMember::EachCPU {
                    lemma_each_cpu_before_grows(t, i as int, n as int);
                }
                Self::lemma_sample_line_ok_shape(start, prev, i as int, ls[i as int]);
            }
            self.push_line(&mut file_lines, target, cpu_index, Ghost(i as int), Ghost(ls[i as int]));
            proof {
                Self::lemma_line_step(start, prev, *self, t, ls, i as int);
                assert(ls.skip(i + 1) =~= ls.skip(i as int).drop_first());
                if target != StatDataMember::Interrupts {
                    assert(prev.same_member(*self, StatDataMember::Interrupts, 0));
                }
                if target != StatDataMember::SoftIRQs {
                    assert(prev.same_member(*self, StatDataMember::SoftIRQs, 0));
                }
                assert(prev.line_step(*self, t[i as int], slot_of(t, i as int), line_data(ls[i as int])));
                let ghost old_steps = steps;
                steps = steps.push(*self);
                assert forall|j: int| 0 <= j < i + 1 implies #[trigger] steps[j].line_step(
                    steps[j + 1],
                    t[j],
                    slot_of(t, j),
                    line_data(ls[j]),
                ) by {
                    if j < i {
                        assert(steps[j] == old_steps[j] && steps[j + 1] == old_steps[j + 1]);
                    }
                }
            }
            if target == StatDataMember::EachCPU {
                assert(cpu_index < num_cpus);
                cpu_index = cpu_index + 1;
            }
            i = i + 1;
        }
        assert(line_chain(steps, t, ls));
        proof {
            if ls.len() >= t.len() && start.slots_distinct() {
                assert forall|k: int| #![trigger start.all_lens(k)] start.all_lens(k) implies self.all_lens(k + 1) by {
                    Self::lemma_one_more_sample(start, *self, ls, k);
                }
            }
        }
    }

    /// Whether no two lines of the layout go to the same part of the same
    /// member (lines whose data is not recorded, unsupported lines and the
    /// boot time, may repeat)
    pub open spec fn slots_distinct(self) -> bool {
        forall|i: int|
            0 <= i < self.line_target@.len() && self.line_target@[i] != StatDataMember::BootTime
                && self.line_target@[i] != StatDataMember::Unsupported ==> #[trigger] unique_slot(
                self.line_target@,
                i,
            )
    }

    /// When every line of a sample is pushed into a part of a member of its
    /// own, every member of the store gets exactly one more sample
    proof fn lemma_one_more_sample(start: Self, end: Self, ls: Seq<Seq<u8>>, n: int)
        requires
            start.wf(),
            end.wf(),
            start.same_shape(end),
            start.slots_distinct(),
            ls.len() >= start.line_target@.len(),
            forall|j: int|
                #![trigger start.line_target@[j]]
                0 <= j < start.line_target@.len() && unique_slot(start.line_target@, j)
                    ==> start.pushed_member(
                    end,
                    start.line_target@[j],
                    slot_of(start.line_target@, j),
                    line_data(ls[j]),
                ),
            start.all_lens(n),
        ensures
            end.all_lens(n + 1),
    {
        let t = start.line_target@;
        assert forall|m: StatDataMember|
            t.contains(m) && m != StatDataMember::BootTime && m != StatDataMember::Unsupported
                && m != StatDataMember::EachCPU implies start.pushed_member(
            end,
            m,
            slot_of(t, t.index_of(m)),
            line_data(ls[t.index_of(m)]),
        ) by {
            let i = t.index_of(m);
            assert(t[i] == m);
            assert(unique_slot(t, i));
        }
        assert forall|m: int| 0 <= m < end.each_cpu@.len() implies (
        #[trigger] end.each_cpu@[m]).user_time@.len() == n + 1 by {
            lemma_cpu_line_exists(t, t.len() as int, m);
            let i = choose|i: int|
                0 <= i < t.len() && (#[trigger] t[i]) == StatDataMember::EachCPU && each_cpu_before(t, i) == m;
            assert(unique_slot(t, i));
            assert(start.pushed_member(end, t[i], slot_of(t, i), line_data(ls[i])));
            assert(start.each_cpu@[m].user_time@.len() == n);
        }
    }

    /// Whether `o` is `self` after the data `d` of a line were pushed into
    /// part k of member m: that part got one more sample made of `d`, and
    /// nothing else changed
    pub open spec fn line_step(self, o: Self, m: StatDataMember, k: int, d: Seq<Seq<u8>>) -> bool {
        &&& self.same_shape(o)
        &&& self.same_except(o, m, k)
        &&& self.pushed_member(o, m, k, d)
    }

    /// The requirements of a line only depend on the layout of the store
    proof fn lemma_sample_line_ok_shape(a: Self, b: Self, i: int, line: Seq<u8>)
        requires
            a.wf(),
            a.same_shape(b),
            0 <= i < a.line_target@.len(),
            a.sample_line_ok(i, line),
        ensures
            b.sample_line_ok(i, line),
    {
        let t = a.line_target@;
        if t[i] == StatDataMember::EachCPU {
            lemma_each_cpu_before_grows(t, i, t.len() as int);
            let k = slot_of(t, i);
            assert(b.each_cpu@[k].timers().timer_count() == a.each_cpu@[k].timers().timer_count());
        }
        if t[i] == StatDataMember::AllCPUs {
            assert(t.contains(StatDataMember::AllCPUs)) by {
                assert(t[i] == StatDataMember::AllCPUs);
            }
        }
        if t[i] == StatDataMember::Interrupts {
            assert(t.contains(StatDataMember::Interrupts)) by {
                assert(t[i] == StatDataMember::Interrupts);
            }
        }
        if t[i] == StatDataMember::SoftIRQs {
            assert(t.contains(StatDataMember::SoftIRQs)) by {
                assert(t[i] == StatDataMember::SoftIRQs);
            }
        }
    }

    /// Pushing the i-th line keeps the loop invariant of push()
    proof fn lemma_line_step(start: Self, prev: Self, next: Self, t: Seq<StatDataMember>, ls: Seq<Seq<u8>>, i: int)
        requires
            start.wf(),
            t == start.line_target@,
            0 <= i < t.len(),
            start.same_shape(prev),
            prev.same_shape(next),
            prev.same_except(next, t[i], slot_of(t, i)),
            prev.pushed_member(next, t[i], slot_of(t, i), line_data(ls[i])),
            forall|j: int|
                #![trigger t[j]]
                0 <= j < i && unique_slot(t, j) ==> start.pushed_member(prev, t[j], slot_of(t, j), line_data(ls[j])),
            forall|m: StatDataMember|
                m != StatDataMember::EachCPU && (forall|j: int| 0 <= j < i ==> #[trigger] t[j] != m)
                    ==> #[trigger] start.same_member(prev, m, 0),
            forall|k: int|
                each_cpu_before(t, i) <= k < start.each_cpu@.len() ==> #[trigger] prev.each_cpu@[k] == start.each_cpu@[k],
        ensures
            start.same_shape(next),
            forall|j: int|
                #![trigger t[j]]
                0 <= j < i + 1 && unique_slot(t, j) ==> start.pushed_member(next, t[j], slot_of(t, j), line_data(ls[j])),
            forall|m: StatDataMember|
                m != StatDataMember::EachCPU && (forall|j: int| 0 <= j < i + 1 ==> #[trigger] t[j] != m)
                    ==> #[trigger] start.same_member(next, m, 0),
            forall|k: int|
                each_cpu_before(t, i + 1) <= k < start.each_cpu@.len() ==> #[trigger] next.each_cpu@[k] == start.each_cpu@[k],
    {
        assert forall|j: int|
            #![trigger t[j]]
            0 <= j < i + 1 && unique_slot(t, j) implies start.pushed_member(next, t[j], slot_of(t, j), line_data(ls[j])) by {
            if t[j] == StatDataMember::EachCPU {
                lemma_each_cpu_before_grows(t, j, t.len() as int);
                let k = slot_of(t, j);
                if j < i {
                    lemma_each_cpu_before_grows(t, j, i);
                    assert(next.each_cpu@[k] == prev.each_cpu@[k]);
                } else {
                    assert(prev.each_cpu@[k] == start.each_cpu@[k]);
                }
            } else if j < i {
                assert(!touches(t, i, t[j], slot_of(t, j)));
                assert(prev.same_member(next, t[j], 0));
            } else {
                assert forall|j2: int| 0 <= j2 < i implies #[trigger] t[j2] != t[i] by {
                    assert(!touches(t, j2, t[i], slot_of(t, i)));
                }
                assert(start.same_member(prev, t[i], 0));
            }
        }
        assert forall|m: StatDataMember|
            m != StatDataMember::EachCPU && (forall|j: int| 0 <= j < i + 1 ==> #[trigger] t[j] != m)
            implies #[trigger] start.same_member(next, m, 0) by {
            assert(t[i] != m);
            assert(prev.same_member(next, m, 0));
            assert forall|j: int| 0 <= j < i implies #[trigger] t[j] != m by {}
            assert(start.same_member(prev, m, 0));
        }
    }

    /// Tell how many samples are present in the data store, as told by its
    /// first member
    pub fn len(&self) -> (r: usize)
        ensures
            r == stored_len(*self),
    {
        match &self.all_cpus {
            Some(c) => return c.len(),
            None => {},
        }
        match &self.paging {
            Some(p) => return p.len(),
            None => {},
        }
        match &self.swapping {
            Some(p) => return p.len(),
            None => {},
        }
        match &self.interrupts {
            Some(x) => return x.len(),
            None => {},
        }
        match &self.context_switches {
            Some(v) => return v.len(),
            None => {},
        }
        match &self.process_forks {
            Some(v) => return v.len(),
            None => {},
        }
        match &self.runnable_processes {
            Some(v) => return v.len(),
            None => {},
        }
        match &self.blocked_processes {
            Some(v) => return v.len(),
            None => {},
        }
        match &self.softirqs {
            Some(x) => x.len(),
            None => 0,
        }
    }
}

/// Whether a sequence of stores goes through the lines of a sample one at a
/// time, in order, as far as both the sample and the layout `t` go: each
/// store is the previous one after the data of the next line were pushed
/// into the part of the member that the layout maps the line to
pub open spec fn line_chain(steps: Seq<StatData>, t: Seq<StatDataMember>, ls: Seq<Seq<u8>>) -> bool {
    let n = if t.len() < ls.len() { t.len() as int } else { ls.len() as int };
    &&& steps.len() == n + 1
    &&& forall|j: int|
        0 <= j < n ==> #[trigger] steps[j].line_step(steps[j + 1], t[j], slot_of(t, j), line_data(ls[j]))
}

/// Number of samples in a store, as told by its first member
pub open spec fn stored_len(d: StatData) -> int {
    if d.all_cpus is Some {
        d.all_cpus->0.user_time@.len() as int
    } else if d.paging is Some {
        d.paging->0.incoming@.len() as int
    } else if d.swapping is Some {
        d.swapping->0.incoming@.len() as int
    } else if d.interrupts is Some {
        d.interrupts->0.total@.len() as int
    } else if d.context_switches is Some {
        d.context_switches->0@.len() as int
    } else if d.process_forks is Some {
        d.process_forks->0@.len() as int
    } else if d.runnable_processes is Some {
        d.runnable_processes->0@.len() as int
    } else if d.blocked_processes is Some {
        d.blocked_processes->0@.len() as int
    } else if d.softirqs is Some {
        d.softirqs->0.total@.len() as int
    } else {
        0
    }
}

/// Whether a store has a member which counts its samples
pub open spec fn has_member(d: StatData) -> bool {
    ||| d.all_cpus is Some
    ||| d.paging is Some
    ||| d.swapping is Some
    ||| d.interrupts is Some
    ||| d.context_switches is Some
    ||| d.process_forks is Some
    ||| d.runnable_processes is Some
    ||| d.blocked_processes is Some
    ||| d.softirqs is Some
}

} // verus!
