//! Storage for the IRQ statistics of /proc/stat (intr and softirq), filled
//! from a line and word splitter which is positioned on the record's line.
use vstd::prelude::*;
use crate::parsers::SplitLinesBySpace;
use crate::parsers::stat::StatDataStore;
use crate::text::{bytes_of, parses_as_u64, u64_value, parse_unsigned_str, lemma_parse_zero};

verus! {

/// Interrupt statistics from /proc/stat, in structure-of-array layout
#[derive(Debug, PartialEq)]
pub struct InterruptStatData {
    /// Total number of interrupts that were serviced. May be higher than the
    /// sum of the breakdown below if there are unnumbered interrupt sources.
    pub total: Vec<u64>,
    /// For each numbered source, details on the amount of serviced interrupt.
    pub details: Vec<InterruptCounts>,
}

impl InterruptStatData {
    /// Every counter holds as many samples as the total
    pub open spec fn wf(self) -> bool {
        forall|i: int| 0 <= i < self.details@.len() ==> {
            &&& #[trigger] self.details@[i].wf()
            &&& self.details@[i].samples().len() == self.total@.len()
        }
    }

    /// Whether `after` holds one more sample than `self`, made of the given
    /// textual counters (the total, then one per interrupt source)
    pub open spec fn pushed(self, after: Self, words: Seq<Seq<u8>>) -> bool {
        &&& after.total@ == self.total@.push(u64_value(words[0]))
        &&& after.details@.len() == self.details@.len()
        &&& forall|i: int| 0 <= i < self.details@.len() ==> #[trigger] after.details@[i].samples()
            == self.details@[i].samples().push(u64_value(words[i + 1]))
    }

    /// Create new interrupt statistics, given the amount of interrupt sources
    pub fn new(num_irqs: u16) -> (r: Self)
        ensures
            r.wf(),
            r.total@.len() == 0,
            r.details@.len() == num_irqs,
    {
        let n = num_irqs as usize;
        let mut details: Vec<InterruptCounts> = Vec::new();
        let mut i: usize = 0;
        while i < n
            invariant
                i <= n,
                details@.len() == i,
                forall|k: int| 0 <= k < i ==> #[trigger] details@[k] == InterruptCounts::Zeroes(0),
            decreases n - i,
        {
            details.push(InterruptCounts::new());
            i = i + 1;
        }
        InterruptStatData { total: Vec::new(), details }
    }
}

impl StatDataStore for InterruptStatData {
    open spec fn store_wf(&self) -> bool {
        self.wf() && self.total@.len() < usize::MAX
    }

    open spec fn accepts(&self, words: Seq<Seq<u8>>) -> bool {
        &&& words.len() > self.details@.len()
        &&& forall|i: int| 0 <= i <= self.details@.len() ==> parses_as_u64(#[trigger] words[i])
    }

    open spec fn sample_count(&self) -> int {
        self.total@.len() as int
    }

    /// Parse interrupt statistics and add them to the internal data store
    fn push(&mut self, stats: &mut SplitLinesBySpace)
        ensures
            old(self).pushed(*final(self), old(stats).line_words()),
            final(self).wf(),
    {
        let ghost words = stats.line_words();
        self.total.push(parse_unsigned_str(stats.next().unwrap(), u64::MAX).unwrap());
        let n = self.details.len();
        let mut i: usize = 0;
        while i < n
            invariant
                i <= n == self.details@.len(),
                n == old(self).details@.len(),
                self.total@ == old(self).total@.push(u64_value(words[0])),
                old(self).total@.len() < usize::MAX,
                words.len() > n,
                forall|k: int| 0 <= k <= n ==> parses_as_u64(#[trigger] words[k]),
                stats.wf(),
                stats.is_inside_line(),
                stats.text() == old(stats).text(),
                stats.remaining_lines() == old(stats).remaining_lines(),
                stats.line_words() == words.skip(i + 1),
                forall|k: int| 0 <= k < i ==> #[trigger] self.details@[k].samples()
                    == old(self).details@[k].samples().push(u64_value(words[k + 1])),
                forall|k: int| i <= k < n ==> #[trigger] self.details@[k] == old(self).details@[k],
                forall|k: int| 0 <= k < n ==> (#[trigger] self.details@[k]).wf(),
                forall|k: int| 0 <= k < n ==> (#[trigger] old(self).details@[k]).wf()
                    && old(self).details@[k].samples().len() == old(self).total@.len(),
            decreases n - i,
        {
            assert(stats.line_words()[0] == words[i + 1]);
            let counter = stats.next().unwrap();
            assert(words.skip(i + 2) =~= words.skip(i + 1).drop_first());
            assert(self.details@[i as int] == old(self).details@[i as int]);
            self.details[i].push(counter);
            i = i + 1;
        }
        assert forall|k: int| 0 <= k < self.details@.len() implies {
            &&& #[trigger] self.details@[k].wf()
            &&& self.details@[k].samples().len() == self.total@.len()
        } by {
            assert(self.details@[k].samples() == old(self).details@[k].samples().push(u64_value(words[k + 1])));
        }
    }

    /// Tell how many samples are present in the data store
    fn len(&self) -> (r: usize) {
        self.total.len()
    }
}

/// On some platforms such as x86, there are a lot of hardware IRQs (~500 on
/// some machines), but most of them are unused and never fire. Parsing and
/// storing the associated zeroes from /proc/stat by normal means wastes CPU
/// time and RAM, so we take a shortcut for this common use case.
#[derive(Clone, Debug, PartialEq)]
pub enum InterruptCounts {
    /// If we've only ever seen zeroes, we only count the number of zeroes
    Zeroes(usize),
    /// Otherwise, we sample the interrupt counts normally
    Samples(Vec<u64>),
}

impl InterruptCounts {
    /// The interrupt counts which were recorded so far
    pub open spec fn samples(self) -> Seq<u64> {
        match self {
            InterruptCounts::Zeroes(n) => Seq::new(n as nat, |i: int| 0u64),
            InterruptCounts::Samples(v) => v@,
        }
    }

    /// Regular sampling only starts with a first sample which is not
    /// written "0"
    pub open spec fn wf(self) -> bool {
        match self {
            InterruptCounts::Zeroes(_) => true,
            InterruptCounts::Samples(v) => v@.len() > 0,
        }
    }

    /// Initialize the interrupt count sampler
    pub fn new() -> (r: Self)
        ensures
            r.wf(),
            r.samples().len() == 0,
            r == InterruptCounts::Zeroes(0),
    {
        InterruptCounts::Zeroes(0)
    }

    /// Insert a new interrupt count from /proc/stat
    pub fn push(&mut self, intr_count: &str)
        requires
            old(self).samples().len() < usize::MAX,
            parses_as_u64(bytes_of(intr_count)),
        ensures
            final(self).samples() == old(self).samples().push(u64_value(bytes_of(intr_count))),
            old(self).wf() ==> final(self).wf(),
            ((*final(self)) is Zeroes) <==> ((*old(self)) is Zeroes && bytes_of(intr_count) == seq![48u8]),
    {
        let b = intr_count.as_bytes();
        let is_zero = b.len() == 1 && b[0] == 48u8;
        proof {
            if is_zero {
                assert(bytes_of(intr_count) =~= seq![48u8]);
                lemma_parse_zero(u64::MAX as int);
            } else if b@.len() == 1 {
                assert(bytes_of(intr_count)[0] != seq![48u8][0]);
            }
        }
        match self {
            InterruptCounts::Zeroes(zero_count) => {
                let n = *zero_count;
                if is_zero {
                    *self = InterruptCounts::Zeroes(n + 1);
                    assert(self.samples() =~= old(self).samples().push(0));
                } else {
                    let value = parse_unsigned_str(intr_count, u64::MAX).unwrap();
                    let mut samples: Vec<u64> = Vec::new();
                    let mut i: usize = 0;
                    while i < n
                        invariant
                            i <= n,
                            samples@ == Seq::new(i as nat, |k: int| 0u64),
                        decreases n - i,
                    {
                        samples.push(0);
                        i = i + 1;
                        assert(samples@ =~= Seq::new(i as nat, |k: int| 0u64));
                    }
                    samples.push(value);
                    *self = InterruptCounts::Samples(samples);
                    assert(self.samples() =~= old(self).samples().push(value));
                }
            },
            InterruptCounts::Samples(vec) => {
                let value = parse_unsigned_str(intr_count, u64::MAX).unwrap();
                vec.push(value);
            },
        }
    }

    /// Tell how many interrupt counts we have recorded so far
    pub fn len(&self) -> (r: usize)
        ensures
            r == self.samples().len(),
    {
        match self {
            InterruptCounts::Zeroes(zero_count) => *zero_count,
            InterruptCounts::Samples(vec) => vec.len(),
        }
    }
}

} // verus!
