//! This module contains a sampling parser for /proc/uptime
use vstd::prelude::*;
use crate::parser::PseudoFileParser;
use crate::parsers::{is_duration_text, duration_text_value, whole_seconds_text, duration_text_nanos, is_duration_bytes, parse_duration_bytes};
use crate::text::{bytes_of, blank_len, blank_len_at, field_len, fields, lemma_field_len_bounds, u64_value};
use crate::time::Duration;

verus! {

/// Incremental parser for /proc/uptime
pub struct Parser {}

impl PseudoFileParser for Parser {
    open spec fn accepts_contents(initial_contents: Seq<u8>) -> bool {
        fields(initial_contents).len() >= 2
    }

    /// Build a parser, using initial file contents for schema analysis: the
    /// uptime and the idle time should be present
    fn new(initial_contents: &str) -> (r: Self) {
        let mut columns = FieldStream::new(initial_contents);
        let mut col_count: usize = 0;
        let ghost all = columns.remaining();
        proof {
            columns.lemma_remaining_len();
        }
        loop
            invariant
                columns.wf(),
                col_count + columns.remaining().len() == all.len(),
                all.len() <= usize::MAX,
            decreases columns.remaining().len(),
        {
            match columns.next_field() {
                Some(_) => {
                    col_count = col_count + 1;
                },
                None => {
                    break;
                },
            }
        }
        Parser {}
    }
}

/// Whether a sample of /proc/uptime can be parsed: it holds at least the
/// uptime and the idle time, and each of its fields is a fractional number
/// of seconds
pub open spec fn sample_readable(contents: Seq<u8>) -> bool {
    &&& fields(contents).len() >= 2
    &&& forall|i: int|
        0 <= i < fields(contents).len() ==> is_duration_text(#[trigger] fields(contents)[i])
}

impl Parser {
    /// Tell whether a sample of /proc/uptime can be parsed
    pub fn check_sample(file_contents: &str) -> (r: bool)
        ensures
            r == sample_readable(bytes_of(file_contents)),
    {
        let mut stream = FieldStream::new(file_contents);
        let ghost all = stream.remaining();
        let mut n: usize = 0;
        proof {
            stream.lemma_remaining_len();
        }
        loop
            invariant
                stream.wf(),
                all == fields(bytes_of(file_contents)),
                all.len() <= usize::MAX,
                n <= all.len(),
                stream.remaining() == all.skip(n as int),
                forall|i: int| 0 <= i < n ==> is_duration_text(#[trigger] all[i]),
            ensures
                n == all.len(),
            decreases all.len() - n,
        {
            match stream.next_field() {
                Some(field) => {
                    assert(all[n as int] == all.skip(n as int)[0]);
                    if !is_duration_bytes(field) {
                        return false;
                    }
                    assert(all.skip(n + 1) =~= all.skip(n as int).drop_first());
                    n = n + 1;
                },
                None => {
                    break;
                },
            }
        }
        n >= 2
    }

    /// Begin to parse a pseudo-file sample, streaming its data out
    pub fn parse<'a>(&mut self, file_contents: &'a str) -> (r: FieldStream<'a>)
        ensures
            r.wf(),
            r.remaining() == fields(bytes_of(file_contents)),
    {
        FieldStream::new(file_contents)
    }
}

/// Stream of parsed data from /proc/uptime, which successively yields the
/// machine uptime (wall clock time elapsed since boot), the idle time (total
/// CPU time spent in the idle state), and a None terminator.
pub struct FieldStream<'a> {
    /// Contents of /proc/uptime
    text: &'a str,
    /// Position of the first byte which was not split into fields yet
    pos: usize,
}

impl<'a> FieldStream<'a> {
    pub closed spec fn wf(self) -> bool {
        let b = bytes_of(self.text);
        &&& b.len() <= usize::MAX
        &&& self.pos <= b.len()
    }

    /// Fields of the file which have not been yielded yet
    pub closed spec fn remaining(self) -> Seq<Seq<u8>> {
        fields(bytes_of(self.text).skip(self.pos as int))
    }

    /// There are no more fields left than there are bytes in the file
    pub proof fn lemma_remaining_len(self)
        requires
            self.wf(),
        ensures
            self.remaining().len() <= usize::MAX,
    {
        let t = bytes_of(self.text).skip(self.pos as int);
        lemma_fields_len(t);
    }

    /// Parse the next duration from /proc/uptime
    pub fn next(&mut self) -> (r: Option<Duration>)
        requires
            old(self).wf(),
            old(self).remaining().len() > 0 ==> is_duration_text(old(self).remaining()[0]),
        ensures
            final(self).wf(),
            match r {
                None => old(self).remaining().len() == 0 && final(self).remaining() == old(
                    self,
                ).remaining(),
                Some(d) => {
                    &&& old(self).remaining().len() > 0
                    &&& d@ == duration_text_value(old(self).remaining()[0])
                    &&& final(self).remaining() == old(self).remaining().drop_first()
                },
            },
    {
        match self.next_field() {
            Some(field) => Some(parse_duration_bytes(field)),
            None => None,
        }
    }

    /// Parse all remaining durations and tell how many there were
    pub fn count(self) -> (r: usize)
        requires
            self.wf(),
            forall|i: int| 0 <= i < self.remaining().len() ==> is_duration_text(#[trigger] self.remaining()[i]),
        ensures
            r == self.remaining().len(),
    {
        let mut stream = self;
        let mut n: usize = 0;
        let ghost all = stream.remaining();
        proof {
            stream.lemma_remaining_len();
        }
        loop
            invariant
                stream.wf(),
                n + stream.remaining().len() == all.len(),
                all.len() <= usize::MAX,
                stream.remaining() == all.skip(n as int),
                forall|i: int| 0 <= i < all.len() ==> is_duration_text(#[trigger] all[i]),
            ensures
                n == all.len(),
            decreases stream.remaining().len(),
        {
            proof {
                if n < all.len() {
                    assert(stream.remaining()[0] == all[n as int]);
                }
            }
            match stream.next() {
                Some(_) => {
                    assert(all.skip(n + 1) =~= all.skip(n as int).drop_first());
                    n = n + 1;
                },
                None => {
                    break;
                },
            }
        }
        n
    }

    /// Specialized parser for Durations expressed in fractional seconds,
    /// using the usual text format XXXX[.[YY]]. Decimals beyond nanosecond
    /// precision are truncated.
    pub fn parse_duration_secs(input: &str) -> (d: Duration)
        requires
            is_duration_text(bytes_of(input)),
        ensures
            d@ == duration_text_value(bytes_of(input)),
            d.spec_secs() == u64_value(whole_seconds_text(bytes_of(input))),
            d.spec_nanos() == duration_text_nanos(bytes_of(input)),
            d.spec_nanos() < 1_000_000_000,
    {
        crate::parsers::parse_duration_secs(input)
    }

    /// Yield the next whitespace-separated field of the file, if any
    fn next_field(&mut self) -> (r: Option<&'a [u8]>)
        requires
            old(self).wf(),
        ensures
            final(self).wf(),
            final(self).text == old(self).text,
            match r {
                None => old(self).remaining().len() == 0 && final(self).remaining() == old(
                    self,
                ).remaining(),
                Some(w) => {
                    &&& old(self).remaining().len() > 0
                    &&& w@ == old(self).remaining()[0]
                    &&& final(self).remaining() == old(self).remaining().drop_first()
                },
            },
    {
        let b: &'a [u8] = self.text.as_bytes();
        let ghost s = b@;
        let len = b.len();
        let mut i = self.pos;
        loop
            invariant
                self.pos <= i <= len == s.len(),
                s == bytes_of(self.text),
                b@ == s,
                self.wf(),
                fields(s.skip(i as int)) == fields(s.skip(self.pos as int)),
            ensures
                i == len || blank_len(s.skip(i as int)) == 0,
            decreases len - i,
        {
            if i >= len {
                break;
            }
            let k = blank_len_at(b, i);
            if k == 0 {
                break;
            }
            proof {
                let t = s.skip(i as int);
                assert(t.skip(k as int) =~= s.skip(i + k));
            }
            i = i + k;
        }
        if i == len {
            assert(s.skip(i as int).len() == 0);
            self.pos = i;
            return None;
        }
        let start = i;
        let ghost t = s.skip(start as int);
        proof {
            lemma_field_len_bounds(t);
        }
        while i < len && blank_len_at(b, i) == 0
            invariant
                start <= i <= len == s.len(),
                b@ == s,
                t == s.skip(start as int),
                forall|k: int| start <= k < i ==> blank_len(#[trigger] s.skip(k)) == 0,
            decreases len - i,
        {
            i = i + 1;
        }
        proof {
            let n = field_len(t);
            if n < i - start {
                assert(t.skip(n) =~= s.skip(start + n));
                assert(blank_len(s.skip(start + n)) == 0);
            }
            if n > i - start {
                assert(t.skip(i - start) =~= s.skip(i as int));
                assert(blank_len(t.skip(i - start)) == 0);
            }
            assert(n == i - start);
            assert(t.skip(n) =~= s.skip(i as int));
            assert(t.take(n) =~= s.subrange(start as int, i as int));
            assert((seq![t.take(n)] + fields(t.skip(n))).drop_first() =~= fields(t.skip(n)));
        }
        let field = &b[start..i];
        self.pos = i;
        Some(field)
    }

    /// Set up a FieldStream for a certain sample of /proc/uptime
    pub fn new(file_contents: &'a str) -> (r: Self)
        ensures
            r.wf(),
            r.remaining() == fields(bytes_of(file_contents)),
    {
        let _len = file_contents.as_bytes().len();
        let r = FieldStream { text: file_contents, pos: 0 };
        assert(bytes_of(file_contents).skip(0) =~= bytes_of(file_contents));
        r
    }
}

/// Every field holds at least one byte
pub proof fn lemma_fields_len(s: Seq<u8>)
    ensures
        fields(s).len() <= s.len(),
    decreases s.len(),
{
    if s.len() > 0 {
        if blank_len(s) > 0 {
            lemma_fields_len(s.skip(blank_len(s)));
        } else {
            lemma_field_len_bounds(s);
            lemma_fields_len(s.skip(field_len(s)));
        }
    }
}

/// Data samples from /proc/uptime, in structure-of-array layout
#[derive(Debug, PartialEq)]
pub struct SampledData {
    /// Elapsed wall clock time since the system was started
    pub wall_clock_uptime: Vec<Duration>,
    /// Cumulative amount of time spent by all CPUs in the idle state
    pub cpu_idle_time: Vec<Duration>,
}

impl SampledData {
    /// Create a new uptime data store, from a stream which holds at least
    /// the uptime and the idle time
    pub fn new(stream: FieldStream) -> (r: Self)
        requires
            stream.wf(),
            stream.remaining().len() >= 2,
            forall|i: int| 0 <= i < stream.remaining().len() ==> is_duration_text(#[trigger] stream.remaining()[i]),
        ensures
            r.wall_clock_uptime@.len() == 0,
            r.cpu_idle_time@.len() == 0,
    {
        let _field_count = stream.count();
        SampledData { wall_clock_uptime: Vec::new(), cpu_idle_time: Vec::new() }
    }

    /// Push a new stream of parsed data from /proc/uptime into the store
    pub fn push(&mut self, stream: FieldStream)
        requires
            stream.wf(),
            stream.remaining().len() >= 2,
            is_duration_text(stream.remaining()[0]),
            is_duration_text(stream.remaining()[1]),
        ensures
            final(self).wall_clock_uptime@.len() == old(self).wall_clock_uptime@.len() + 1,
            final(self).wall_clock_uptime@.drop_last() == old(self).wall_clock_uptime@,
            final(self).wall_clock_uptime@.last()@ == duration_text_value(stream.remaining()[0]),
            final(self).cpu_idle_time@.len() == old(self).cpu_idle_time@.len() + 1,
            final(self).cpu_idle_time@.drop_last() == old(self).cpu_idle_time@,
            final(self).cpu_idle_time@.last()@ == duration_text_value(stream.remaining()[1]),
    {
        let mut stream = stream;
        let ghost fs = stream.remaining();
        let uptime = stream.next().unwrap();
        assert(stream.remaining()[0] == fs[1]);
        let idle = stream.next().unwrap();
        let ghost w = self.wall_clock_uptime@;
        let ghost c = self.cpu_idle_time@;
        self.wall_clock_uptime.push(uptime);
        self.cpu_idle_time.push(idle);
        assert(self.wall_clock_uptime@.drop_last() =~= w);
        assert(self.cpu_idle_time@.drop_last() =~= c);
    }

    /// Tell how many samples are present in the data store
    pub fn len(&self) -> (r: usize)
        ensures
            r == self.wall_clock_uptime@.len(),
    {
        self.wall_clock_uptime.len()
    }
}

} // verus!
