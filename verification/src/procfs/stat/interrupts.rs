//! This module contains facilities for parsing and storing the data contained
//! in the IRQ statistics of /proc/stat (intr and softirq).
use vstd::prelude::*;
use crate::splitter::{SplitColumns, SplitLinesBySpace};
use crate::text::{bytes_of, parses_as_u64, u64_value, parse_unsigned_str, lemma_parse_zero};
use crate::procfs::stat::cpu::counters;

verus! {

/// Interrupt statistics record from /proc/stat
pub struct RecordFields<'a, 'b> where 'a: 'b {
    /// Total amount of interrupt requests that were serviced
    pub total: u64,
    /// Breakdown of the interrupt requests per numbered interrupt source.
    pub details: DetailsIter<'a, 'b>,
}

impl<'a, 'b> RecordFields<'a, 'b> {
    /// Build a new parser for interrupt record fields: a total count of
    /// interrupts, followed by a count for each numbered interrupt source
    pub fn new(data_columns: SplitColumns<'a, 'b>) -> (r: Self)
        requires
            data_columns.is_open(),
            data_columns.remaining_words().len() >= 1,
            parses_as_u64(data_columns.remaining_words()[0]),
        ensures
            r.total == u64_value(data_columns.remaining_words()[0]),
            r.details.data_columns.is_open(),
            r.details.remaining() == data_columns.remaining_words().drop_first(),
            SplitLinesBySpace::same_lines(*old(data_columns.parent), *r.details.data_columns.parent),
            *final(old(data_columns.parent)) == *final(r.details.data_columns.parent),
    {
        let mut data_columns = data_columns;
        let total = parse_unsigned_str(data_columns.next().unwrap(), u64::MAX).unwrap();
        RecordFields { total, details: DetailsIter { data_columns } }
    }
}

/// Breakdown of IRQ counts per numbered interrupt source.
/// Beware that not all interrupt sources are numbered by the Linux kernel.
pub struct DetailsIter<'a, 'b> where 'a: 'b {
    /// Data columns of the record, interpreted as numbered IRQs
    pub data_columns: SplitColumns<'a, 'b>,
}

impl<'a, 'b> DetailsIter<'a, 'b> {
    /// Interrupt counters which have not been parsed yet, in textual form
    pub open spec fn remaining(self) -> Seq<Seq<u8>> {
        self.data_columns.remaining_words()
    }

    /// Parse the next interrupt counter, if any
    pub fn next(&mut self) -> (r: Option<u64>)
        requires
            old(self).data_columns.is_open(),
            old(self).remaining().len() > 0 ==> parses_as_u64(old(self).remaining()[0]),
        ensures
            SplitLinesBySpace::same_lines(*old(self).data_columns.parent, *final(self).data_columns.parent),
            *final(final(self).data_columns.parent) == *final(old(self).data_columns.parent),
            match r {
                None => old(self).remaining().len() == 0 && !final(self).data_columns.is_open(),
                Some(v) => {
                    &&& old(self).remaining().len() > 0
                    &&& v == u64_value(old(self).remaining()[0])
                    &&& final(self).data_columns.is_open()
                    &&& final(self).remaining() == old(self).remaining().drop_first()
                },
            },
    {
        match self.data_columns.next() {
            Some(str_counter) => {
                // On some architectures such as x86_64, there are many possible
                // interrupt sources and most of them will never fire. Special-
                // casing zero interrupt counts will thus speed up parsing.
                let b = str_counter.as_bytes();
                if b.len() == 1 && b[0] == 48u8 {
                    assert(bytes_of(str_counter) =~= seq![48u8]);
                    proof {
                        lemma_parse_zero(u64::MAX as int);
                    }
                    Some(0)
                } else {
                    Some(parse_unsigned_str(str_counter, u64::MAX).unwrap())
                }
            },
            None => None,
        }
    }

    /// Parse all remaining interrupt counters and tell how many there were
    pub fn count(self) -> (r: usize)
        requires
            self.data_columns.is_open(),
            counters(self.remaining(), self.remaining().len() as int),
        ensures
            r == self.remaining().len(),
            SplitLinesBySpace::same_lines(*old(self.data_columns.parent), *final(self.data_columns.parent)),
    {
        let mut iter = self;
        let mut n: usize = 0;
        let ghost total = iter.remaining().len();
        proof {
            iter.data_columns.parent.lemma_line_words_len();
        }
        loop
            invariant_except_break
                iter.data_columns.is_open(),
                n + iter.remaining().len() == total,
                counters(iter.remaining(), iter.remaining().len() as int),
            invariant
                total <= usize::MAX,
                total == self.remaining().len(),
                SplitLinesBySpace::same_lines(*self.data_columns.parent, *iter.data_columns.parent),
                *final(iter.data_columns.parent) == *final(self.data_columns.parent),
            ensures
                n == total,
            decreases iter.remaining().len(),
        {
            let ghost words = iter.remaining();
            match iter.next() {
                Some(_) => {
                    assert forall|i: int| 0 <= i < iter.remaining().len() implies parses_as_u64(
                        #[trigger] iter.remaining()[i],
                    ) by {
                        assert(iter.remaining()[i] == words[i + 1]);
                    }
                    n = n + 1;
                },
                None => {
                    break;
                },
            }
        }
        n
    }
}

/// On some platforms such as x86, there are a lot of hardware IRQs (~500 on my
/// machines), but most of them are unused and never fire. Parsing and storing
/// the associated zeroes from /proc/stat by normal means wastes CPU time and
/// RAM, so we take a shortcut for this common use case.
#[derive(Clone, Debug, PartialEq)]
pub enum SampledCounter {
    /// If we've only ever seen zeroes, we only count the number of zeroes
    Zeroes(usize),
    /// Otherwise, we sample the interrupt counts normally
    Samples(Vec<u64>),
}

impl SampledCounter {
    /// The interrupt counts which were recorded so far
    pub open spec fn samples(self) -> Seq<u64> {
        match self {
            SampledCounter::Zeroes(n) => Seq::new(n as nat, |i: int| 0u64),
            SampledCounter::Samples(v) => v@,
        }
    }

    /// The zero-only representation is used exactly when no nonzero count
    /// was recorded
    pub open spec fn wf(self) -> bool {
        match self {
            SampledCounter::Zeroes(_) => true,
            SampledCounter::Samples(v) => exists|i: int| 0 <= i < v@.len() && v@[i] != 0,
        }
    }

    /// Initialize the interrupt count sampler
    pub fn new() -> (r: Self)
        ensures
            r.wf(),
            r.samples().len() == 0,
            r == SampledCounter::Zeroes(0),
    {
        SampledCounter::Zeroes(0)
    }

    /// Insert a new interrupt count from /proc/stat
    pub fn push(&mut self, intr_count: u64)
        requires
            old(self).samples().len() < usize::MAX,
        ensures
            final(self).samples() == old(self).samples().push(intr_count),
            old(self).wf() ==> final(self).wf(),
            ((*final(self)) is Zeroes) <==> ((*old(self)) is Zeroes && intr_count == 0),
    {
        match self {
            SampledCounter::Zeroes(zero_count) => {
                let n = *zero_count;
                if intr_count == 0 {
                    *self = SampledCounter::Zeroes(n + 1);
                    assert(self.samples() =~= old(self).samples().push(intr_count));
                } else {
                    let mut samples: Vec<u64> = Vec::new();
                    let mut i: usize = 0;
                    while i < n
                        invariant
                            i <= n,
                            samples@ == Seq::new(i as nat, |k: int| 0u64),
                        decreases n - i,
                    {
                        samples.push(0);
                        i = i + 1;
                        assert(samples@ =~= Seq::new(i as nat, |k: int| 0u64));
                    }
                    samples.push(intr_count);
                    assert(samples@[n as int] != 0);
                    *self = SampledCounter::Samples(samples);
                    assert(self.samples() =~= old(self).samples().push(intr_count));
                }
            },
            SampledCounter::Samples(vec) => {
                vec.push(intr_count);
                proof {
                    if old(self).wf() {
                        let i = choose|i: int| 0 <= i < old(self).samples().len() && old(self).samples()[i] != 0;
                        assert(self.samples()[i] != 0);
                    }
                }
            },
        }
    }

    /// Tell how many interrupt counts we have recorded so far
    pub fn len(&self) -> (r: usize)
        ensures
            r == self.samples().len(),
    {
        match self {
            SampledCounter::Zeroes(zero_count) => *zero_count,
            SampledCounter::Samples(vec) => vec.len(),
        }
    }
}

/// Interrupt statistics from /proc/stat, in structure-of-array layout
#[derive(Clone, Debug, PartialEq)]
pub struct SampledData {
    /// Total number of interrupts that were serviced. May be higher than the
    /// sum of the breakdown below if there are unnumbered interrupt sources.
    pub total: Vec<u64>,
    /// For each numbered source, details on the amount of serviced interrupt.
    pub details: Vec<SampledCounter>,
}

/// Interrupt statistics, as stored by /proc/stat's data store
pub type Data = SampledData;

impl SampledData {
    /// Every counter holds as many samples as the total
    pub open spec fn wf(self) -> bool {
        forall|i: int| 0 <= i < self.details@.len() ==> {
            &&& #[trigger] self.details@[i].wf()
            &&& self.details@[i].samples().len() == self.total@.len()
        }
    }

    /// Whether `after` holds one more sample than `self`, made of the given
    /// total and textual counters
    pub open spec fn pushed(self, after: Self, total: u64, details: Seq<Seq<u8>>) -> bool {
        &&& after.total@ == self.total@.push(total)
        &&& after.details@.len() == self.details@.len()
        &&& forall|i: int| 0 <= i < self.details@.len() ==> #[trigger] after.details@[i].samples()
            == self.details@[i].samples().push(u64_value(details[i]))
    }

    /// Create new interrupt statistics, with one counter per interrupt source
    /// of the record
    pub fn new(fields: RecordFields) -> (r: Self)
        requires
            fields.details.data_columns.is_open(),
            counters(fields.details.remaining(), fields.details.remaining().len() as int),
        ensures
            r.wf(),
            r.total@.len() == 0,
            r.details@.len() == fields.details.remaining().len(),
            SplitLinesBySpace::same_lines(*old(fields.details.data_columns.parent), *final(fields.details.data_columns.parent)),
    {
        let n = fields.details.count();
        let mut details: Vec<SampledCounter> = Vec::new();
        let mut i: usize = 0;
        while i < n
            invariant
                i <= n,
                details@.len() == i,
                forall|k: int| 0 <= k < i ==> #[trigger] details@[k] == SampledCounter::Zeroes(0),
            decreases n - i,
        {
            details.push(SampledCounter::new());
            i = i + 1;
        }
        SampledData { total: Vec::new(), details }
    }

    /// Add parsed interrupt statistics to the internal data store
    pub fn push(&mut self, fields: RecordFields)
        requires
            old(self).wf(),
            old(self).total@.len() < usize::MAX,
            fields.details.data_columns.is_open(),
            counters(fields.details.remaining(), old(self).details@.len() as int),
        ensures
            final(self).wf(),
            old(self).pushed(*final(self), fields.total, fields.details.remaining()),
            SplitLinesBySpace::same_lines(*old(fields.details.data_columns.parent), *final(fields.details.data_columns.parent)),
    {
        self.total.push(fields.total);
        let mut details_iter = fields.details;
        let ghost words = details_iter.remaining();
        let n = self.details.len();
        let mut i: usize = 0;
        while i < n
            invariant
                i <= n == self.details@.len(),
                n == old(self).details@.len(),
                self.total@ == old(self).total@.push(fields.total),
                self.total@.len() == old(self).total@.len() + 1,
                old(self).total@.len() < usize::MAX,
                words == fields.details.remaining(),
                counters(words, n as int),
                i < n ==> details_iter.data_columns.is_open(),
                i < n ==> details_iter.remaining() == words.skip(i as int),
                forall|k: int| 0 <= k < i ==> #[trigger] self.details@[k].samples()
                    == old(self).details@[k].samples().push(u64_value(words[k])),
                forall|k: int| i <= k < n ==> #[trigger] self.details@[k] == old(self).details@[k],
                forall|k: int| 0 <= k < n ==> (#[trigger] self.details@[k]).wf(),
                forall|k: int| 0 <= k < n ==> (#[trigger] old(self).details@[k]).wf()
                    && old(self).details@[k].samples().len() == old(self).total@.len(),
                SplitLinesBySpace::same_lines(*fields.details.data_columns.parent, *details_iter.data_columns.parent),
                *final(details_iter.data_columns.parent) == *final(fields.details.data_columns.parent),
            decreases n - i,
        {
            assert(details_iter.remaining()[0] == words[i as int]);
            let value = details_iter.next().unwrap();
            assert(words.skip(i + 1) =~= words.skip(i as int).drop_first());
            assert(self.details@[i as int] == old(self).details@[i as int]);
            assert(old(self).details@[i as int].samples().len() == old(self).total@.len());
            self.details[i].push(value);
            i = i + 1;
        }
    }

    /// Tell how many samples are present in the data store
    pub fn len(&self) -> (r: usize)
        ensures
            r == self.total@.len(),
    {
        self.total.len()
    }
}

} // verus!
