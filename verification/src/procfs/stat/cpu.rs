//! This module contains facilities for parsing and storing the data contained
//! in the "cpu" sections of /proc/stat.
use vstd::prelude::*;
use crate::splitter::{SplitColumns, SplitLinesBySpace};
use crate::text::{bytes_of, parses_as_u64, u64_value, parse_unsigned_str};
use crate::time::Duration;

verus! {

/// Length, in nanoseconds, of a number of clock ticks (the sub-second part
/// is computed with a whole number of nanoseconds per tick)
pub open spec fn ticks_to_nanos(ticks: int, ticks_per_sec: int) -> int {
    (ticks / ticks_per_sec) * 1_000_000_000 + (ticks % ticks_per_sec) * (1_000_000_000int
        / ticks_per_sec)
}

/// A CPU timing is its tick count divided by the tick rate: where the tick
/// rate divides one second into a whole number of nanoseconds, the timing is
/// exact, whatever the number of ticks
pub proof fn lemma_ticks_to_nanos_exact(ticks: int, ticks_per_sec: int)
    requires
        ticks >= 0,
        ticks_per_sec > 0,
        1_000_000_000int % ticks_per_sec == 0,
    ensures
        ticks_to_nanos(ticks, ticks_per_sec) * ticks_per_sec == ticks * 1_000_000_000,
{
    let q = ticks / ticks_per_sec;
    let r = ticks % ticks_per_sec;
    let k = 1_000_000_000int / ticks_per_sec;
    assert(ticks == q * ticks_per_sec + r) by (nonlinear_arith)
        requires
            ticks_per_sec > 0,
            q == ticks / ticks_per_sec,
            r == ticks % ticks_per_sec,
    ;
    assert(1_000_000_000int == k * ticks_per_sec) by (nonlinear_arith)
        requires
            ticks_per_sec > 0,
            k == 1_000_000_000int / ticks_per_sec,
            1_000_000_000int % ticks_per_sec == 0,
    ;
    assert((q * 1_000_000_000 + r * k) * ticks_per_sec == ticks * 1_000_000_000) by (nonlinear_arith)
        requires
            ticks == q * ticks_per_sec + r,
            1_000_000_000int == k * ticks_per_sec,
    ;
}

/// Whatever the tick rate, every full second's worth of ticks adds one second
/// to a CPU timing, and fewer ticks than make a second take a whole number of
/// nanoseconds each
pub proof fn lemma_ticks_to_nanos_per_second(ticks: int, ticks_per_sec: int)
    requires
        ticks >= 0,
        ticks_per_sec > 0,
    ensures
        ticks_to_nanos(ticks + ticks_per_sec, ticks_per_sec) == ticks_to_nanos(ticks, ticks_per_sec)
            + 1_000_000_000,
        ticks < ticks_per_sec ==> ticks_to_nanos(ticks, ticks_per_sec) == ticks * (1_000_000_000int
            / ticks_per_sec),
{
    vstd::arithmetic::div_mod::lemma_mod_add_multiples_vanish(ticks, ticks_per_sec);
    vstd::arithmetic::div_mod::lemma_div_plus_one(ticks, ticks_per_sec);
    assert(ticks_per_sec + ticks == ticks + ticks_per_sec);
    if ticks < ticks_per_sec {
        vstd::arithmetic::div_mod::lemma_basic_div(ticks, ticks_per_sec);
        vstd::arithmetic::div_mod::lemma_small_mod(ticks as nat, ticks_per_sec as nat);
    }
}

/// Whether the first `n` words of a sequence are decimal counters
pub open spec fn counters(words: Seq<Seq<u8>>, n: int) -> bool {
    &&& n <= words.len()
    &&& forall|i: int| 0 <= i < n ==> parses_as_u64(#[trigger] words[i])
}

/// Whether a vector of durations is another one with one more duration of the
/// given length at its end
pub open spec fn appended(before: Seq<Duration>, after: Seq<Duration>, nanos: int) -> bool {
    &&& after.len() == before.len() + 1
    &&& after.drop_last() == before
    &&& after.last()@ == nanos
}

/// Length of a number of clock ticks, given the number of ticks in one second
/// and the number of nanoseconds in one tick
pub fn ticks_duration(ticks: u64, ticks_per_sec: u64, nanosecs_per_tick: u64) -> (d: Duration)
    requires
        ticks_per_sec > 0,
        nanosecs_per_tick == 1_000_000_000int / (ticks_per_sec as int),
    ensures
        d@ == ticks_to_nanos(ticks as int, ticks_per_sec as int),
{
    let secs = ticks / ticks_per_sec;
    let sub_ticks = ticks % ticks_per_sec;
    proof {
        let tps = ticks_per_sec as int;
        let npt = nanosecs_per_tick as int;
        assert(sub_ticks * npt <= (tps - 1) * npt) by (nonlinear_arith)
            requires 0 <= sub_ticks < tps, npt >= 0;
        assert((tps - 1) * npt < 1_000_000_000) by (nonlinear_arith)
            requires npt == 1_000_000_000int / tps, tps > 0;
    }
    let nanosecs = sub_ticks * nanosecs_per_tick;
    Duration::new(secs, nanosecs as u32)
}

/// CPU statistics record from /proc/stat
///
/// This will yield the amount of CPU time that the system (or one of its
/// hardware CPU threads) spent in various states, in this order: user, nice,
/// system, idle, iowait (Linux 2.5.41+), irq and softirq (Linux 2.6.0-test4+),
/// steal (Linux 2.6.11+), guest (Linux 2.6.24+), guest_nice (Linux 2.6.33+).
pub struct RecordFields<'a, 'b> where 'a: 'b {
    /// Data columns of the record, interpreted as CPU timings
    pub data_columns: SplitColumns<'a, 'b>,
    /// Number of clock ticks in one second
    pub ticks_per_sec: u64,
    /// Number of nanoseconds in one clock tick
    pub nanosecs_per_tick: u64,
}

impl<'a, 'b> RecordFields<'a, 'b> {
    /// Consistency of the tick parameters
    pub open spec fn wf(self) -> bool {
        &&& self.ticks_per_sec > 0
        &&& self.nanosecs_per_tick == 1_000_000_000int / (self.ticks_per_sec as int)
    }

    /// CPU timings which have not been parsed yet, in textual form
    pub open spec fn remaining(self) -> Seq<Seq<u8>> {
        self.data_columns.remaining_words()
    }

    /// Build a new parser for CPU record fields, given the length of a clock
    /// tick (as the number of ticks in one second)
    pub fn new(data_columns: SplitColumns<'a, 'b>, ticks_per_sec: u64) -> (r: Self)
        requires
            ticks_per_sec > 0,
        ensures
            r.wf(),
            r.data_columns == data_columns,
            r.ticks_per_sec == ticks_per_sec,
    {
        RecordFields { data_columns, ticks_per_sec, nanosecs_per_tick: 1_000_000_000 / ticks_per_sec }
    }

    /// Parse the next CPU timing, if any
    pub fn next(&mut self) -> (r: Option<Duration>)
        requires
            old(self).wf(),
            old(self).data_columns.is_open(),
            old(self).remaining().len() > 0 ==> parses_as_u64(old(self).remaining()[0]),
        ensures
            final(self).wf(),
            final(self).ticks_per_sec == old(self).ticks_per_sec,
            SplitLinesBySpace::same_lines(*old(self).data_columns.parent, *final(self).data_columns.parent),
            *final(final(self).data_columns.parent) == *final(old(self).data_columns.parent),
            match r {
                None => old(self).remaining().len() == 0 && !final(self).data_columns.is_open(),
                Some(d) => {
                    &&& old(self).remaining().len() > 0
                    &&& d@ == ticks_to_nanos(u64_value(old(self).remaining()[0]) as int, old(self).ticks_per_sec as int)
                    &&& final(self).data_columns.is_open()
                    &&& final(self).remaining() == old(self).remaining().drop_first()
                },
            },
    {
        match self.data_columns.next() {
            Some(str_duration) => {
                let ticks = parse_unsigned_str(str_duration, u64::MAX).unwrap();
                Some(ticks_duration(ticks, self.ticks_per_sec, self.nanosecs_per_tick))
            },
            None => None,
        }
    }

    /// Parse all remaining CPU timings and tell how many there were
    pub fn count(self) -> (r: usize)
        requires
            self.wf(),
            self.data_columns.is_open(),
            counters(self.remaining(), self.remaining().len() as int),
        ensures
            r == self.remaining().len(),
            SplitLinesBySpace::same_lines(*old(self.data_columns.parent), *final(self.data_columns.parent)),
    {
        let mut fields = self;
        let mut n: usize = 0;
        let ghost total = fields.remaining().len();
        proof {
            fields.data_columns.parent.lemma_line_words_len();
        }
        loop
            invariant_except_break
                fields.wf(),
                fields.data_columns.is_open(),
                n + fields.remaining().len() == total,
                counters(fields.remaining(), fields.remaining().len() as int),
            invariant
                total <= usize::MAX,
                total == self.remaining().len(),
                SplitLinesBySpace::same_lines(*self.data_columns.parent, *fields.data_columns.parent),
                *final(fields.data_columns.parent) == *final(self.data_columns.parent),
            ensures
                n == total,
            decreases fields.remaining().len(),
        {
            let ghost words = fields.remaining();
            match fields.next() {
                Some(_) => {
                    assert forall|i: int| 0 <= i < fields.remaining().len() implies parses_as_u64(
                        #[trigger] fields.remaining()[i],
                    ) by {
                        assert(fields.remaining()[i] == words[i + 1]);
                    }
                    n = n + 1;
                },
                None => {
                    break;
                },
            }
        }
        n
    }
}

/// The amount of CPU time that the system spent in various states
#[derive(Clone, Debug, PartialEq)]
pub struct Data {
    /// Time spent in user mode
    pub user_time: Vec<Duration>,
    /// Time spent in user mode with low priority (nice)
    pub nice_time: Vec<Duration>,
    /// Time spent in system (aka kernel) mode
    pub system_time: Vec<Duration>,
    /// Time spent in the idle task (should match second entry in /proc/uptime)
    pub idle_time: Vec<Duration>,
    /// Time spent waiting for IO to complete (since Linux 2.5.41)
    /// BEWARE: This measure is mostly meaningless on modern kernels
    pub io_wait_time: Option<Vec<Duration>>,
    /// Time spent servicing hardware interrupts (since Linux 2.6.0-test4)
    pub irq_time: Option<Vec<Duration>>,
    /// Time spent servicing software interrupts (since Linux 2.6.0-test4)
    pub softirq_time: Option<Vec<Duration>>,
    /// "Stolen" time spent in other operating systems when running in a
    /// virtualized environment (since Linux 2.6.11)
    pub stolen_time: Option<Vec<Duration>>,
    /// Time spent running a virtual CPU for guest OSs (since Linux 2.6.24)
    pub guest_time: Option<Vec<Duration>>,
    /// Time spent running a niced guest (see above, since Linux 2.6.33)
    pub guest_nice_time: Option<Vec<Duration>>,
}

/// Length of an optional timing record, or `len` if it is absent
pub open spec fn opt_len(v: Option<Vec<Duration>>, len: int) -> int {
    match v {
        Some(v) => v@.len() as int,
        None => len,
    }
}

/// Whether an optional timing record is present and empty, or absent
pub open spec fn opt_empty_if(v: Option<Vec<Duration>>, present: bool) -> bool {
    match v {
        Some(v) => present && v@.len() == 0,
        None => !present,
    }
}

/// Whether an optional timing record was absent and stayed so, or got one
/// more duration of the given length
pub open spec fn opt_appended(before: Option<Vec<Duration>>, after: Option<Vec<Duration>>, nanos: int) -> bool {
    match (before, after) {
        (Some(b), Some(a)) => appended(b@, a@, nanos),
        (None, None) => true,
        _ => false,
    }
}

impl Data {
    /// Number of CPU timers which are recorded
    pub open spec fn timer_count(self) -> int {
        4 + (if self.io_wait_time is Some { 1int } else { 0 }) + (if self.irq_time is Some {
            1int
        } else {
            0
        }) + (if self.softirq_time is Some { 1int } else { 0 }) + (if self.stolen_time is Some {
            1int
        } else {
            0
        }) + (if self.guest_time is Some { 1int } else { 0 }) + (if self.guest_nice_time is Some {
            1int
        } else {
            0
        })
    }

    /// Consistency of the data store: optional timers are recorded in the
    /// order in which they were introduced in Linux, and all timers hold the
    /// same number of samples.
    pub open spec fn wf(self) -> bool {
        let n = self.user_time@.len() as int;
        &&& self.nice_time@.len() == n
        &&& self.system_time@.len() == n
        &&& self.idle_time@.len() == n
        &&& opt_len(self.io_wait_time, n) == n
        &&& opt_len(self.irq_time, n) == n
        &&& opt_len(self.softirq_time, n) == n
        &&& opt_len(self.stolen_time, n) == n
        &&& opt_len(self.guest_time, n) == n
        &&& opt_len(self.guest_nice_time, n) == n
        &&& (self.io_wait_time is None ==> self.irq_time is None)
        &&& (self.irq_time is None ==> self.softirq_time is None)
        &&& (self.softirq_time is None ==> self.stolen_time is None)
        &&& (self.stolen_time is None ==> self.guest_time is None)
        &&& (self.guest_time is None ==> self.guest_nice_time is None)
    }

    /// Whether this is an empty data store for records of `num_timers` timers
    pub open spec fn is_empty_for(self, num_timers: int) -> bool {
        &&& self.user_time@.len() == 0
        &&& self.nice_time@.len() == 0
        &&& self.system_time@.len() == 0
        &&& self.idle_time@.len() == 0
        &&& opt_empty_if(self.io_wait_time, num_timers >= 5)
        &&& opt_empty_if(self.irq_time, num_timers >= 6)
        &&& opt_empty_if(self.softirq_time, num_timers >= 7)
        &&& opt_empty_if(self.stolen_time, num_timers >= 8)
        &&& opt_empty_if(self.guest_time, num_timers >= 9)
        &&& opt_empty_if(self.guest_nice_time, num_timers >= 10)
    }

    /// Whether `after` is `self` with one more sample, whose textual timings
    /// are `words`, converted with the given clock tick rate
    pub open spec fn pushed(self, after: Self, words: Seq<Seq<u8>>, ticks_per_sec: int) -> bool {
        let t = |i: int| ticks_to_nanos(u64_value(words[i]) as int, ticks_per_sec);
        &&& appended(self.user_time@, after.user_time@, t(0))
        &&& appended(self.nice_time@, after.nice_time@, t(1))
        &&& appended(self.system_time@, after.system_time@, t(2))
        &&& appended(self.idle_time@, after.idle_time@, t(3))
        &&& opt_appended(self.io_wait_time, after.io_wait_time, t(4))
        &&& opt_appended(self.irq_time, after.irq_time, t(5))
        &&& opt_appended(self.softirq_time, after.softirq_time, t(6))
        &&& opt_appended(self.stolen_time, after.stolen_time, t(7))
        &&& opt_appended(self.guest_time, after.guest_time, t(8))
        &&& opt_appended(self.guest_nice_time, after.guest_nice_time, t(9))
    }

    /// Tell how many samples are present in the data store
    pub fn len(&self) -> (r: usize)
        ensures
            r == self.user_time@.len(),
    {
        self.user_time.len()
    }

    /// Tell how many CPU timers are recorded
    pub fn num_timers(&self) -> (r: usize)
        ensures
            r == self.timer_count(),
    {
        let mut n: usize = 4;
        if self.io_wait_time.is_some() {
            n = n + 1;
        }
        if self.irq_time.is_some() {
            n = n + 1;
        }
        if self.softirq_time.is_some() {
            n = n + 1;
        }
        if self.stolen_time.is_some() {
            n = n + 1;
        }
        if self.guest_time.is_some() {
            n = n + 1;
        }
        if self.guest_nice_time.is_some() {
            n = n + 1;
        }
        n
    }

    /// Create new CPU statistics, using a first record to know how many CPU
    /// timers the kernel provides
    pub fn new(fields: RecordFields) -> (r: Self)
        requires
            fields.wf(),
            fields.data_columns.is_open(),
            counters(fields.remaining(), fields.remaining().len() as int),
            fields.remaining().len() >= 4,
        ensures
            r.wf(),
            r.is_empty_for(fields.remaining().len() as int),
            SplitLinesBySpace::same_lines(*old(fields.data_columns.parent), *final(fields.data_columns.parent)),
    {
        let num_timers = fields.count();
        let conditional_vec = |index: usize| -> (v: Option<Vec<Duration>>)
            ensures
                v matches Some(v) ==> v@.len() == 0,
                v is Some <==> index <= num_timers,
            {
                if index <= num_timers {
                    Some(Vec::new())
                } else {
                    None
                }
            };
        Data {
            user_time: Vec::new(),
            nice_time: Vec::new(),
            system_time: Vec::new(),
            idle_time: Vec::new(),
            io_wait_time: conditional_vec(5),
            irq_time: conditional_vec(6),
            softirq_time: conditional_vec(7),
            stolen_time: conditional_vec(8),
            guest_time: conditional_vec(9),
            guest_nice_time: conditional_vec(10),
        }
    }

    /// Parse CPU statistics and add them to the internal data store
    pub fn push(&mut self, fields: RecordFields)
        requires
            old(self).wf(),
            fields.wf(),
            fields.data_columns.is_open(),
            counters(fields.remaining(), old(self).timer_count()),
        ensures
            final(self).wf(),
            old(self).pushed(*final(self), fields.remaining(), fields.ticks_per_sec as int),
            SplitLinesBySpace::same_lines(*old(fields.data_columns.parent), *final(fields.data_columns.parent)),
    {
        let mut fields = fields;
        let ghost words = fields.remaining();
        let ghost tps = fields.ticks_per_sec as int;
        assert(words.skip(0) =~= words);
        let ghost old_self = *self;
        self.user_time.push(fields.next().unwrap());
        assert(words.skip(1) =~= words.skip(0).drop_first());
        self.nice_time.push(fields.next().unwrap());
        assert(words.skip(2) =~= words.skip(1).drop_first());
        self.system_time.push(fields.next().unwrap());
        assert(words.skip(3) =~= words.skip(2).drop_first());
        self.idle_time.push(fields.next().unwrap());
        assert(words.skip(4) =~= words.skip(3).drop_first());
        assert(self.user_time@.drop_last() =~= old_self.user_time@);
        assert(self.nice_time@.drop_last() =~= old_self.nice_time@);
        assert(self.system_time@.drop_last() =~= old_self.system_time@);
        assert(self.idle_time@.drop_last() =~= old_self.idle_time@);
        Self::optional_push(&mut self.io_wait_time, &mut fields, Ghost(words), Ghost(4));
        Self::optional_push(&mut self.irq_time, &mut fields, Ghost(words), Ghost(5));
        Self::optional_push(&mut self.softirq_time, &mut fields, Ghost(words), Ghost(6));
        Self::optional_push(&mut self.stolen_time, &mut fields, Ghost(words), Ghost(7));
        Self::optional_push(&mut self.guest_time, &mut fields, Ghost(words), Ghost(8));
        Self::optional_push(&mut self.guest_nice_time, &mut fields, Ghost(words), Ghost(9));
    }

    /// Load an optional CPU timer, if the kernel provides it
    fn optional_push(stat: &mut Option<Vec<Duration>>, fields: &mut RecordFields, Ghost(words): Ghost<Seq<Seq<u8>>>, Ghost(index): Ghost<int>)
        requires
            0 <= index,
            old(fields).wf(),
            old(fields).data_columns.is_open(),
            old(stat).is_some() ==> words.len() > index && counters(words, index + 1),
            old(stat).is_some() ==> old(fields).remaining() == words.skip(index),
        ensures
            final(fields).wf(),
            final(fields).ticks_per_sec == old(fields).ticks_per_sec,
            final(fields).data_columns.is_open() || final(stat).is_none(),
            SplitLinesBySpace::same_lines(*old(fields).data_columns.parent, *final(fields).data_columns.parent),
            *final(final(fields).data_columns.parent) == *final(old(fields).data_columns.parent),
            opt_appended(*old(stat), *final(stat), ticks_to_nanos(u64_value(words[index]) as int, old(fields).ticks_per_sec as int)),
            old(stat).is_some() ==> final(fields).remaining() == words.skip(index + 1),
            old(stat).is_none() ==> *final(fields) == *old(fields),
    {
        match stat.take() {
            Some(mut vec) => {
                assert(fields.remaining()[0] == words[index]);
                assert(words.skip(index + 1) =~= words.skip(index).drop_first());
                let ghost before = vec@;
                vec.push(fields.next().unwrap());
                assert(vec@.drop_last() =~= before);
                *stat = Some(vec);
            },
            None => {},
        }
    }
}

} // verus!
