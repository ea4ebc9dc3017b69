//! This module contains a sampling parser for /proc/stat
pub mod cpu;
pub mod interrupt;
pub mod interrupts;
pub mod paging;

use vstd::prelude::*;
use vstd::utf8::encode_utf8;
use crate::parser::PseudoFileParser;
use crate::splitter::{SplitColumns, SplitLinesBySpace};
use crate::text::{bytes_of, lines, words, char_boundary, parse_unsigned, parse_i64_spec,
    parses_as_u64, u64_value, parse_unsigned_bytes, parse_unsigned_str, parse_i64_str,
    bytes_equal, starts_with_bytes, slice_skip, lemma_parse_unsigned_range};

verus! {

/// Header of a record of /proc/stat: the first word of its line
pub open spec fn header_of(line: Seq<u8>) -> Seq<u8> {
    words(line)[0]
}

/// Data columns of a record of /proc/stat: the words after its header
pub open spec fn data_of(line: Seq<u8>) -> Seq<Seq<u8>> {
    words(line).drop_first()
}

pub open spec fn cpu_tag() -> Seq<u8> {
    seq![99u8, 112, 117]
}

pub open spec fn page_tag() -> Seq<u8> {
    seq![112u8, 97, 103, 101]
}

pub open spec fn swap_tag() -> Seq<u8> {
    seq![115u8, 119, 97, 112]
}

pub open spec fn intr_tag() -> Seq<u8> {
    seq![105u8, 110, 116, 114]
}

pub open spec fn ctxt_tag() -> Seq<u8> {
    seq![99u8, 116, 120, 116]
}

pub open spec fn btime_tag() -> Seq<u8> {
    seq![98u8, 116, 105, 109, 101]
}

pub open spec fn processes_tag() -> Seq<u8> {
    seq![112u8, 114, 111, 99, 101, 115, 115, 101, 115]
}

pub open spec fn procs_tag() -> Seq<u8> {
    seq![112u8, 114, 111, 99, 115, 95]
}

pub open spec fn running_tag() -> Seq<u8> {
    seq![114u8, 117, 110, 110, 105, 110, 103]
}

pub open spec fn blocked_tag() -> Seq<u8> {
    seq![98u8, 108, 111, 99, 107, 101, 100]
}

pub open spec fn softirq_tag() -> Seq<u8> {
    seq![115u8, 111, 102, 116, 105, 114, 113]
}

/// Whether a header starts with "cpu"
pub open spec fn has_cpu_prefix(h: Seq<u8>) -> bool {
    h.len() >= 3 && h.take(3) == cpu_tag()
}

/// Whether a header starts with "procs_" and goes on after it
pub open spec fn has_procs_prefix(h: Seq<u8>) -> bool {
    h.len() > 6 && h.take(6) == procs_tag()
}

/// The kind of record which a header announces, if it is supported
pub open spec fn supported_kind(h: Seq<u8>) -> Option<RecordKind> {
    if has_cpu_prefix(h) {
        if h.len() == 3 {
            Some(RecordKind::CPUTotal)
        } else {
            match parse_unsigned(h.skip(3), 65535) {
                Some(id) => Some(RecordKind::CPUThread(id as u16)),
                None => None,
            }
        }
    } else if h == page_tag() {
        Some(RecordKind::PagingTotal)
    } else if h == swap_tag() {
        Some(RecordKind::PagingSwap)
    } else if h == intr_tag() {
        Some(RecordKind::InterruptsHW)
    } else if h == ctxt_tag() {
        Some(RecordKind::ContextSwitches)
    } else if h == btime_tag() {
        Some(RecordKind::BootTime)
    } else if h == processes_tag() {
        Some(RecordKind::ProcessForks)
    } else if has_procs_prefix(h) {
        if h.skip(6) == running_tag() {
            Some(RecordKind::ProcessesRunnable)
        } else if h.skip(6) == blocked_tag() {
            Some(RecordKind::ProcessesBlocked)
        } else {
            None
        }
    } else if h == softirq_tag() {
        Some(RecordKind::InterruptsSW)
    } else {
        None
    }
}

/// Whether `k` is the kind of a record with header `h`: a supported kind, or
/// an unsupported record which carries the header
pub open spec fn is_kind_of(h: Seq<u8>, k: RecordKind) -> bool {
    match supported_kind(h) {
        Some(s) => k == s,
        None => k matches RecordKind::Unsupported(name) && encode_utf8(name@) == h,
    }
}

/// Headers whose kind can be told: the header gets cut after its first three
/// bytes, and possibly after its first six bytes, where characters must end
pub open spec fn kind_defined(h: Seq<u8>) -> bool {
    &&& h.len() >= 3 ==> char_boundary(h, 3)
    &&& (h.len() > 6 && !has_cpu_prefix(h) && h != processes_tag()) ==> char_boundary(h, 6)
}

/// Whether a record with header `h` is of kind `k`
pub open spec fn header_has_kind(h: Seq<u8>, k: RecordKind) -> bool {
    match k {
        RecordKind::CPUTotal => h == cpu_tag(),
        RecordKind::CPUThread(id) => h.len() > 3 && h.take(3) == cpu_tag() && parse_unsigned(
            h.skip(3),
            65535,
        ) == Some(id as int),
        RecordKind::PagingTotal => h == page_tag(),
        RecordKind::PagingSwap => h == swap_tag(),
        RecordKind::InterruptsHW => h == intr_tag(),
        RecordKind::ContextSwitches => h == ctxt_tag(),
        RecordKind::BootTime => h == btime_tag(),
        RecordKind::ProcessForks => h == processes_tag(),
        RecordKind::ProcessesRunnable => h == procs_tag() + running_tag(),
        RecordKind::ProcessesBlocked => h == procs_tag() + blocked_tag(),
        RecordKind::InterruptsSW => h == softirq_tag(),
        RecordKind::Unsupported(name) => h == encode_utf8(name@),
    }
}

/// Checking a header against a kind of per-thread CPU statistics cuts it
/// after its first three bytes, where a character must end
pub open spec fn has_kind_defined(h: Seq<u8>, k: RecordKind) -> bool {
    (k is CPUThread && h.len() > 3) ==> char_boundary(h, 3)
}

/// Every line of a /proc/stat sample has a header whose kind can be told
pub open spec fn schema_readable(ls: Seq<Seq<u8>>) -> bool {
    forall|i: int| 0 <= i < ls.len() ==> {
        &&& words(#[trigger] ls[i]).len() > 0
        &&& kind_defined(header_of(ls[i]))
    }
}

/// The kind of a record is a kind that the record has: checking a record
/// against the kind that it was found to be of succeeds
pub proof fn lemma_kind_of_has_kind(h: Seq<u8>, k: RecordKind)
    requires
        is_kind_of(h, k),
    ensures
        header_has_kind(h, k),
{
    if has_cpu_prefix(h) && h.len() > 3 {
        lemma_parse_unsigned_range(h.skip(3), 65535);
        if let Some(id) = parse_unsigned(h.skip(3), 65535) {
            assert((id as u16) as int == id);
        }
    }
    if h.len() == 3 {
        assert(h.take(3) =~= h);
    }
    if !has_cpu_prefix(h) && has_procs_prefix(h) {
        assert(h =~= h.take(6) + h.skip(6));
    }
}

/// Checking a record against a supported kind succeeds exactly when the
/// record is of that kind: `has_kind(k)` agrees with `kind() == k` for every
/// kind other than an unsupported one
pub proof fn lemma_has_kind_iff_kind_of(h: Seq<u8>, k: RecordKind)
    requires
        !(k is Unsupported),
    ensures
        header_has_kind(h, k) <==> is_kind_of(h, k),
{
    if is_kind_of(h, k) {
        lemma_kind_of_has_kind(h, k);
    }
    if header_has_kind(h, k) {
        match k {
            RecordKind::CPUTotal => {
                assert(h.take(3) =~= h);
            },
            RecordKind::CPUThread(id) => {
                lemma_parse_unsigned_range(h.skip(3), 65535);
            },
            RecordKind::ProcessesRunnable => {
                assert(h.take(3) =~= seq![112u8, 114, 111]);
                assert(h.take(6) =~= procs_tag());
                assert(h.skip(6) =~= running_tag());
            },
            RecordKind::ProcessesBlocked => {
                assert(h.take(3) =~= seq![112u8, 114, 111]);
                assert(h.take(6) =~= procs_tag());
                assert(h.skip(6) =~= blocked_tag());
            },
            _ => {
                if h.len() >= 3 {
                    assert(h.take(3) =~= seq![h[0], h[1], h[2]]);
                }
                if h.len() > 6 {
                    assert(h.take(6) =~= seq![h[0], h[1], h[2], h[3], h[4], h[5]]);
                }
            },
        }
    }
}

/// Incremental parser for /proc/stat
pub struct Parser {}

impl PseudoFileParser for Parser {
    open spec fn accepts_contents(initial_contents: Seq<u8>) -> bool {
        schema_readable(lines(initial_contents))
    }

    /// Build a parser, using an initial file sample. Here, this is used to
    /// perform quick schema validation, just to maximize the odds that
    /// failure, if any, will occur at initialization time rather than run
    /// time.
    fn new(initial_contents: &str) -> (r: Self) {
        let mut stream = RecordStream::new(initial_contents);
        let ghost ls = lines(bytes_of(initial_contents));
        let ghost mut done: int = 0;
        loop
            invariant
                stream.wf(),
                0 <= done <= ls.len(),
                stream.remaining() == ls.skip(done),
                schema_readable(ls),
            decreases ls.len() - done,
        {
            proof {
                if done < ls.len() {
                    assert(stream.remaining()[0] == ls[done]);
                }
            }
            match stream.next() {
                Some(record) => {
                    let _kind = record.kind();
                    proof {
                        assert(ls.skip(done + 1) =~= ls.skip(done).drop_first());
                        done = done + 1;
                    }
                },
                None => {
                    break;
                },
            }
        }
        Parser {}
    }
}

impl Parser {
    /// Tell whether every line of a sample of /proc/stat has a header whose
    /// kind can be told
    pub fn check_sample(file_contents: &str) -> (r: bool)
        ensures
            r == Self::accepts_contents(bytes_of(file_contents)),
    {
        let mut file_lines = SplitLinesBySpace::new(file_contents);
        let ghost ls = lines(bytes_of(file_contents));
        let ghost mut done: int = 0;
        loop
            invariant
                file_lines.wf(),
                ls == lines(bytes_of(file_contents)),
                0 <= done <= ls.len(),
                file_lines.remaining_lines() == ls.skip(done),
                forall|i: int|
                    0 <= i < done ==> {
                        &&& words(#[trigger] ls[i]).len() > 0
                        &&& kind_defined(header_of(ls[i]))
                    },
            ensures
                done == ls.len(),
            decreases ls.len() - done,
        {
            match file_lines.next() {
                Some(columns) => {
                    assert(ls.skip(done)[0] == ls[done]);
                    let ws = collect_words(columns);
                    if ws.len() == 0 || !header_kind_defined(ws[0]) {
                        return false;
                    }
                    proof {
                        assert(ls.skip(done + 1) =~= ls.skip(done).drop_first());
                        done = done + 1;
                    }
                },
                None => {
                    break;
                },
            }
        }
        true
    }

    /// Parse a pseudo-file sample into a stream of records
    pub fn parse<'a>(&mut self, file_contents: &'a str) -> (r: RecordStream<'a>)
        ensures
            r.wf(),
            r.remaining() == lines(bytes_of(file_contents)),
    {
        RecordStream::new(file_contents)
    }
}

/// Stream of records from /proc/stat
///
/// This streaming iterator yields a stream of records, each representing a
/// line of /proc/stat (i.e. a named homogeneous dataset, like CPU activity
/// counters or interrupt counters).
pub struct RecordStream<'a> {
    /// Iterator into the lines and columns of /proc/stat
    file_lines: SplitLinesBySpace<'a>,
}

impl<'a> RecordStream<'a> {
    /// Line and column splitter of the stream
    pub closed spec fn splitter(self) -> SplitLinesBySpace<'a> {
        self.file_lines
    }

    pub open spec fn wf(self) -> bool {
        self.splitter().wf()
    }

    /// Lines of the file which have not been turned into records yet
    pub open spec fn remaining(self) -> Seq<Seq<u8>> {
        self.splitter().remaining_lines()
    }

    /// Extract the next record from /proc/stat
    pub fn next<'b>(&'b mut self) -> (r: Option<Record<'a, 'b>>)
        where 'a: 'b
        requires
            old(self).wf(),
            old(self).remaining().len() > 0 ==> words(old(self).remaining()[0]).len() > 0,
        ensures
            match r {
                None => {
                    &&& old(self).remaining().len() == 0
                    &&& final(self).wf()
                    &&& final(self).remaining() == old(self).remaining()
                },
                Some(record) => {
                    &&& old(self).remaining().len() > 0
                    &&& bytes_of(record.header) == header_of(old(self).remaining()[0])
                    &&& record.data_columns.is_open()
                    &&& record.data() == data_of(old(self).remaining()[0])
                    &&& record.data_columns.parent.remaining_lines() == old(
                        self,
                    ).remaining().drop_first()
                    &&& final(self).splitter() == *final(record.data_columns.parent)
                },
            },
    {
        match self.file_lines.next() {
            Some(columns) => Some(Record::new(columns)),
            None => None,
        }
    }

    /// Create a record stream from raw contents
    pub fn new(file_contents: &'a str) -> (r: Self)
        ensures
            r.wf(),
            r.remaining() == lines(bytes_of(file_contents)),
    {
        RecordStream { file_lines: SplitLinesBySpace::new(file_contents) }
    }
}

/// Tell how a record with the given header should be parsed (if at all)
fn header_kind(header: &str) -> (r: RecordKind)
    requires
        kind_defined(bytes_of(header)),
    ensures
        is_kind_of(bytes_of(header), r),
{
    let h = header.as_bytes();
    let cpu: [u8; 3] = [99, 112, 117];
    let page: [u8; 4] = [112, 97, 103, 101];
    let swap: [u8; 4] = [115, 119, 97, 112];
    let intr: [u8; 4] = [105, 110, 116, 114];
    let ctxt: [u8; 4] = [99, 116, 120, 116];
    let btime: [u8; 5] = [98, 116, 105, 109, 101];
    let processes: [u8; 9] = [112, 114, 111, 99, 101, 115, 115, 101, 115];
    let procs: [u8; 6] = [112, 114, 111, 99, 115, 95];
    let running: [u8; 7] = [114, 117, 110, 110, 105, 110, 103];
    let blocked: [u8; 7] = [98, 108, 111, 99, 107, 101, 100];
    let softirq: [u8; 7] = [115, 111, 102, 116, 105, 114, 113];
    assert(cpu@ =~= cpu_tag());
    assert(page@ =~= page_tag());
    assert(swap@ =~= swap_tag());
    assert(intr@ =~= intr_tag());
    assert(ctxt@ =~= ctxt_tag());
    assert(btime@ =~= btime_tag());
    assert(processes@ =~= processes_tag());
    assert(procs@ =~= procs_tag());
    assert(running@ =~= running_tag());
    assert(blocked@ =~= blocked_tag());
    assert(softirq@ =~= softirq_tag());
    let unsupported = RecordKind::Unsupported(header.to_owned());
    if starts_with_bytes(h, cpu.as_slice()) {
        // The header of global stats is "cpu", per-thread stats follow it
        // with a numerical identifier
        if h.len() == 3 {
            RecordKind::CPUTotal
        } else {
            match parse_unsigned_bytes(slice_skip(h, 3), 65535) {
                Some(thread_id) => RecordKind::CPUThread(thread_id as u16),
                None => unsupported,
            }
        }
    } else if bytes_equal(h, page.as_slice()) {
        RecordKind::PagingTotal
    } else if bytes_equal(h, swap.as_slice()) {
        RecordKind::PagingSwap
    } else if bytes_equal(h, intr.as_slice()) {
        RecordKind::InterruptsHW
    } else if bytes_equal(h, ctxt.as_slice()) {
        RecordKind::ContextSwitches
    } else if bytes_equal(h, btime.as_slice()) {
        RecordKind::BootTime
    } else if bytes_equal(h, processes.as_slice()) {
        RecordKind::ProcessForks
    } else if h.len() > 6 && starts_with_bytes(h, procs.as_slice()) {
        // Current process activity has a header starting with "procs_"
        let tail = slice_skip(h, 6);
        if bytes_equal(tail, running.as_slice()) {
            RecordKind::ProcessesRunnable
        } else if bytes_equal(tail, blocked.as_slice()) {
            RecordKind::ProcessesBlocked
        } else {
            unsupported
        }
    } else if bytes_equal(h, softirq.as_slice()) {
        RecordKind::InterruptsSW
    } else {
        unsupported
    }
}

/// Tell whether the kind of a record with the given header can be told
fn header_kind_defined(header: &str) -> (r: bool)
    ensures
        r == kind_defined(bytes_of(header)),
{
    let h = header.as_bytes();
    let len = h.len();
    let cpu: [u8; 3] = [99, 112, 117];
    let processes: [u8; 9] = [112, 114, 111, 99, 101, 115, 115, 101, 115];
    assert(cpu@ =~= cpu_tag());
    assert(processes@ =~= processes_tag());
    let cut3 = len <= 3 || !(128u8 <= h[3] && h[3] < 192u8);
    let cut6 = if len > 6 && !starts_with_bytes(h, cpu.as_slice()) && !bytes_equal(
        h,
        processes.as_slice(),
    ) {
        !(128u8 <= h[6] && h[6] < 192u8)
    } else {
        true
    };
    cut3 && cut6
}

/// Tell whether a record with the given header can be checked against a
/// kind
fn header_kind_checkable(header: &str, kind: &RecordKind) -> (r: bool)
    ensures
        r == has_kind_defined(bytes_of(header), *kind),
{
    let h = header.as_bytes();
    match kind {
        RecordKind::CPUThread(_) => h.len() <= 3 || !(128u8 <= h[3] && h[3] < 192u8),
        _ => true,
    }
}

/// The words of a line, which the given columns iterate over
pub(crate) fn collect_words<'a, 'b>(columns: SplitColumns<'a, 'b>) -> (r: Vec<&'a str>)
    requires
        columns.is_open(),
    ensures
        r@.len() == columns.remaining_words().len(),
        forall|i: int| 0 <= i < r@.len() ==> bytes_of(#[trigger] r@[i]) == columns.remaining_words()[i],
        SplitLinesBySpace::same_lines(*old(columns.parent), *final(columns.parent)),
{
    let mut cols = columns;
    let ghost w = cols.remaining_words();
    let mut v: Vec<&'a str> = Vec::new();
    assert(w.skip(0) =~= w);
    loop
        invariant_except_break
            cols.is_open(),
            cols.remaining_words() == w.skip(v@.len() as int),
        invariant
            v@.len() <= w.len(),
            w == columns.remaining_words(),
            forall|i: int| 0 <= i < v@.len() ==> bytes_of(#[trigger] v@[i]) == w[i],
            SplitLinesBySpace::same_lines(*columns.parent, *cols.parent),
            *final(cols.parent) == *final(columns.parent),
        ensures
            v@.len() == w.len(),
        decreases w.len() - v@.len(),
    {
        match cols.next() {
            Some(x) => {
                assert(w.skip(v@.len() as int)[0] == w[v@.len() as int]);
                assert(w.skip(v@.len() as int + 1) =~= w.skip(v@.len() as int).drop_first());
                v.push(x);
            },
            None => {
                break;
            },
        }
    }
    v
}

/// Tell whether `n` words of a line, from position `from` on, are counters
pub(crate) fn counters_from(ws: &Vec<&str>, from: usize, n: usize, Ghost(w): Ghost<Seq<Seq<u8>>>) -> (r: bool)
    requires
        from <= w.len(),
        ws@.len() == w.len(),
        forall|i: int| 0 <= i < w.len() ==> bytes_of(#[trigger] ws@[i]) == w[i],
    ensures
        r == cpu::counters(w.skip(from as int), n as int),
{
    if n > ws.len() - from {
        return false;
    }
    assert(ws@.len() <= usize::MAX);
    let mut i: usize = 0;
    while i < n
        invariant
            i <= n,
            from + n <= ws@.len() <= usize::MAX,
            ws@.len() == w.len(),
            forall|j: int| 0 <= j < w.len() ==> bytes_of(#[trigger] ws@[j]) == w[j],
            forall|j: int| 0 <= j < i ==> parses_as_u64(#[trigger] w.skip(from as int)[j]),
        decreases n - i,
    {
        assert(w.skip(from as int)[i as int] == w[from + i]);
        if parse_unsigned_str(ws[from + i], u64::MAX).is_none() {
            return false;
        }
        i = i + 1;
    }
    true
}

/// Tell whether the words of a line make a record of a known kind, from
/// which a data store can be set up, and if so, what its kind is
fn setup_words_kind(ws: &Vec<&str>, Ghost(line): Ghost<Seq<u8>>) -> (r: Option<RecordKind>)
    requires
        ws@.len() == words(line).len(),
        forall|i: int| 0 <= i < ws@.len() ==> bytes_of(#[trigger] ws@[i]) == words(line)[i],
    ensures
        r is Some <==> (words(line).len() > 0 && kind_defined(header_of(line)) && setup_record_ok(
            line,
        )),
        r matches Some(k) ==> is_kind_of(header_of(line), k),
{
    let ghost w = words(line);
    if ws.len() == 0 {
        return None;
    }
    let h = ws[0];
    if !header_kind_defined(h) {
        return None;
    }
    let k = header_kind(h);
    let ghost d = data_of(line);
    assert(w.skip(1) =~= d);
    let n = ws.len();
    let ok = match &k {
        RecordKind::CPUTotal => n - 1 >= 4 && counters_from(ws, 1, n - 1, Ghost(w)),
        RecordKind::CPUThread(_) => n - 1 >= 4 && counters_from(ws, 1, n - 1, Ghost(w)),
        RecordKind::PagingTotal => counters_from(ws, 1, 2, Ghost(w)),
        RecordKind::PagingSwap => counters_from(ws, 1, 2, Ghost(w)),
        RecordKind::InterruptsHW => n >= 2 && counters_from(ws, 1, n - 1, Ghost(w)),
        RecordKind::InterruptsSW => n >= 2 && counters_from(ws, 1, n - 1, Ghost(w)),
        RecordKind::BootTime => n >= 2 && parse_i64_str(ws[1]).is_some(),
        _ => true,
    };
    proof {
        if n >= 2 {
            assert(d.drop_first() =~= w.skip(2));
            if cpu::counters(d, d.len() as int) {
                assert(parses_as_u64(d[0]));
                assert forall|j: int| 0 <= j < d.len() - 1 implies parses_as_u64(#[trigger] d.drop_first()[j]) by {
                    assert(d.drop_first()[j] == d[j + 1]);
                }
            }
            if interrupts_record_ok(d, d.len() - 1) {
                assert forall|j: int| 0 <= j < d.len() implies parses_as_u64(#[trigger] d[j]) by {
                    if j > 0 {
                        assert(d.drop_first()[j - 1] == d[j]);
                    }
                }
            }
            assert(d[0] == w[1]);
        }
        if n >= 3 {
            assert(d[1] == w[2]);
        }
    }
    if ok {
        Some(k)
    } else {
        None
    }
}

/// Check if a record with the given header is of a certain kind
fn header_is_kind(header: &str, kind: &RecordKind) -> (r: bool)
    requires
        has_kind_defined(bytes_of(header), *kind),
    ensures
        r == header_has_kind(bytes_of(header), *kind),
{
    let h = header.as_bytes();
    let cpu: [u8; 3] = [99, 112, 117];
    let page: [u8; 4] = [112, 97, 103, 101];
    let swap: [u8; 4] = [115, 119, 97, 112];
    let intr: [u8; 4] = [105, 110, 116, 114];
    let ctxt: [u8; 4] = [99, 116, 120, 116];
    let btime: [u8; 5] = [98, 116, 105, 109, 101];
    let processes: [u8; 9] = [112, 114, 111, 99, 101, 115, 115, 101, 115];
    let procs_running: [u8; 13] = [112, 114, 111, 99, 115, 95, 114, 117, 110, 110, 105, 110, 103];
    let procs_blocked: [u8; 13] = [112, 114, 111, 99, 115, 95, 98, 108, 111, 99, 107, 101, 100];
    let softirq: [u8; 7] = [115, 111, 102, 116, 105, 114, 113];
    assert(cpu@ =~= cpu_tag());
    assert(page@ =~= page_tag());
    assert(swap@ =~= swap_tag());
    assert(intr@ =~= intr_tag());
    assert(ctxt@ =~= ctxt_tag());
    assert(btime@ =~= btime_tag());
    assert(processes@ =~= processes_tag());
    assert(procs_running@ =~= procs_tag() + running_tag());
    assert(procs_blocked@ =~= procs_tag() + blocked_tag());
    assert(softirq@ =~= softirq_tag());
    match kind {
        RecordKind::CPUTotal => bytes_equal(h, cpu.as_slice()),
        RecordKind::CPUThread(thread_id) => {
            if h.len() > 3 && starts_with_bytes(h, cpu.as_slice()) {
                match parse_unsigned_bytes(slice_skip(h, 3), 65535) {
                    Some(id) => id == *thread_id as u64,
                    None => false,
                }
            } else {
                false
            }
        },
        RecordKind::PagingTotal => bytes_equal(h, page.as_slice()),
        RecordKind::PagingSwap => bytes_equal(h, swap.as_slice()),
        RecordKind::InterruptsHW => bytes_equal(h, intr.as_slice()),
        RecordKind::ContextSwitches => bytes_equal(h, ctxt.as_slice()),
        RecordKind::BootTime => bytes_equal(h, btime.as_slice()),
        RecordKind::ProcessForks => bytes_equal(h, processes.as_slice()),
        RecordKind::ProcessesRunnable => bytes_equal(h, procs_running.as_slice()),
        RecordKind::ProcessesBlocked => bytes_equal(h, procs_blocked.as_slice()),
        RecordKind::InterruptsSW => bytes_equal(h, softirq.as_slice()),
        RecordKind::Unsupported(header) => bytes_equal(h, header.as_str().as_bytes()),
    }
}

/// Parseable record from /proc/stat
///
/// This represents a line of /proc/stat, which may contain various kinds of
/// data. Use the kind() method of this type to identify what kind of
/// supported data is stored in this record, if any.
///
/// After the first sample, you may switch to calling the appropriate
/// parse_xyz() method directly *if* you do not intend to support kernel
/// version changes or CPU hotplug. Otherwise, you will want to use has_kind()
/// in order to check for schema changes, which can occur on these events.
pub struct Record<'a, 'b> where 'a: 'b {
    /// Header of the record, used to identify what kind of record it is
    pub header: &'a str,
    /// Data columns of the record, to be handed to a record-specific parser
    pub data_columns: SplitColumns<'a, 'b>,
}

impl<'a, 'b> Record<'a, 'b> {
    /// Data columns of the record which were not parsed yet
    pub open spec fn data(self) -> Seq<Seq<u8>> {
        self.data_columns.remaining_words()
    }

    /// Tell how the active record should be parsed (if at all)
    pub fn kind(&self) -> (r: RecordKind)
        requires
            kind_defined(bytes_of(self.header)),
        ensures
            is_kind_of(bytes_of(self.header), r),
    {
        header_kind(self.header)
    }

    /// Check if the active record is of a certain kind
    ///
    /// This operation is faster than calling kind() and comparing the result.
    /// It is intended to be used in order to check whether the /proc/stat
    /// schema has changed, e.g. due to a kernel update or CPU hotplug event.
    pub fn has_kind(&self, kind: &RecordKind) -> (r: bool)
        requires
            has_kind_defined(bytes_of(self.header), *kind),
        ensures
            r == header_has_kind(bytes_of(self.header), *kind),
    {
        header_is_kind(self.header, kind)
    }

    /// Parse the current record as global or per-core CPU stats, given the
    /// number of clock ticks in one second
    pub fn parse_cpu(self, ticks_per_sec: u64) -> (r: cpu::RecordFields<'a, 'b>)
        requires
            ticks_per_sec > 0,
        ensures
            r.wf(),
            r.data_columns == self.data_columns,
            r.ticks_per_sec == ticks_per_sec,
    {
        cpu::RecordFields::new(self.data_columns, ticks_per_sec)
    }

    /// Parse the current record as paging or swapping statistics
    pub fn parse_paging(self) -> (r: paging::RecordFields)
        requires
            self.data_columns.is_open(),
            self.data().len() >= 2,
            parses_as_u64(self.data()[0]),
            parses_as_u64(self.data()[1]),
        ensures
            r.incoming == u64_value(self.data()[0]),
            r.outgoing == u64_value(self.data()[1]),
            SplitLinesBySpace::same_lines(*old(self.data_columns.parent), *final(self.data_columns.parent)),
    {
        paging::RecordFields::new(self.data_columns)
    }

    /// Parse the current record as hardware or software interrupt statistics
    pub fn parse_interrupts(self) -> (r: interrupts::RecordFields<'a, 'b>)
        requires
            self.data_columns.is_open(),
            self.data().len() >= 1,
            parses_as_u64(self.data()[0]),
        ensures
            r.total == u64_value(self.data()[0]),
            r.details.data_columns.is_open(),
            r.details.remaining() == self.data().drop_first(),
            SplitLinesBySpace::same_lines(*old(self.data_columns.parent), *r.details.data_columns.parent),
            *final(old(self.data_columns.parent)) == *final(r.details.data_columns.parent),
    {
        interrupts::RecordFields::new(self.data_columns)
    }

    /// Parse the current record as a context switch counter
    pub fn parse_context_switches(self) -> (r: u64)
        requires
            self.data_columns.is_open(),
            self.data().len() >= 1,
            parses_as_u64(self.data()[0]),
        ensures
            r == u64_value(self.data()[0]),
            SplitLinesBySpace::same_lines(*old(self.data_columns.parent), *final(self.data_columns.parent)),
    {
        // Context switches happen rather frequently (up to 10k/second), so
        // anything less than a 64-bit counter would be unwise for this quantity
        let mut columns = self.data_columns;
        parse_unsigned_str(columns.next().unwrap(), u64::MAX).unwrap()
    }

    /// Parse the current record as a boot time, in seconds since the UNIX
    /// UTC epoch
    pub fn parse_boot_time(self) -> (r: i64)
        requires
            self.data_columns.is_open(),
            self.data().len() >= 1,
            parse_i64_spec(self.data()[0]) is Some,
        ensures
            parse_i64_spec(self.data()[0]) == Some(r as int),
            SplitLinesBySpace::same_lines(*old(self.data_columns.parent), *final(self.data_columns.parent)),
    {
        let mut columns = self.data_columns;
        parse_i64_str(columns.next().unwrap()).unwrap()
    }

    /// Parse the current record as a process fork counter
    pub fn parse_process_forks(self) -> (r: u32)
        requires
            self.data_columns.is_open(),
            self.data().len() >= 1,
            parse_unsigned(self.data()[0], u32::MAX as int) is Some,
        ensures
            parse_unsigned(self.data()[0], u32::MAX as int) == Some(r as int),
            SplitLinesBySpace::same_lines(*old(self.data_columns.parent), *final(self.data_columns.parent)),
    {
        // Spawning four billion processes seems somewhat unusual for the
        // uptime of a typical UNIX machine, so we can stick with u32 here
        let mut columns = self.data_columns;
        parse_unsigned_str(columns.next().unwrap(), 0xFFFF_FFFF).unwrap() as u32
    }

    /// Parse the current record as a counter of live processes
    pub fn parse_processes(self) -> (r: u16)
        requires
            self.data_columns.is_open(),
            self.data().len() >= 1,
            parse_unsigned(self.data()[0], u16::MAX as int) is Some,
        ensures
            parse_unsigned(self.data()[0], u16::MAX as int) == Some(r as int),
            SplitLinesBySpace::same_lines(*old(self.data_columns.parent), *final(self.data_columns.parent)),
    {
        // More than 65535 processes running or waiting for IO at a given time
        // on a single machine seems unlikely, so 16 bits are enough
        let mut columns = self.data_columns;
        parse_unsigned_str(columns.next().unwrap(), 0xFFFF).unwrap() as u16
    }

    /// Construct a new record from associated file columns
    pub fn new(file_columns: SplitColumns<'a, 'b>) -> (r: Self)
        requires
            file_columns.is_open(),
            file_columns.remaining_words().len() > 0,
        ensures
            bytes_of(r.header) == file_columns.remaining_words()[0],
            r.data_columns.is_open(),
            r.data() == file_columns.remaining_words().drop_first(),
            SplitLinesBySpace::same_lines(*old(file_columns.parent), *r.data_columns.parent),
            *final(old(file_columns.parent)) == *final(r.data_columns.parent),
    {
        let mut file_columns = file_columns;
        let header = file_columns.next().unwrap();
        Record { header, data_columns: file_columns }
    }
}

/// Records from /proc/stat can feature different kinds of statistical data
#[derive(Clone, Debug, PartialEq)]
pub enum RecordKind {
    /// Total CPU usage
    CPUTotal,
    /// Single hardware CPU thread usage, with the thread's numerical ID.
    ///
    /// As of 2017, where CPUs with a little more than 256 threads have just
    /// started to appear in HPC centers, a 16-bit ID appears both necessary
    /// and sufficient for storing Linux' CPU thread IDs.
    CPUThread(u16),
    /// Total paging activity to and from disk
    PagingTotal,
    /// Paging activity that is specifically related to swap usage
    PagingSwap,
    /// Interrupt actvity of hardware IRQs
    InterruptsHW,
    /// Number of context switches since boot
    ContextSwitches,
    /// System boot time
    BootTime,
    /// Number of spawned processes (forks) since boot
    ProcessForks,
    /// Number of processes which are currently in a runnable state
    ProcessesRunnable,
    /// Number of processes which are currently blocked waiting for I/O
    ProcessesBlocked,
    /// Interrupt activity of software IRQs ("softirqs")
    InterruptsSW,
    /// Some record type unsupported by this parser, with the associated
    /// header, so that we can check that at least it did not change from one
    /// parsing pass to the next.
    Unsupported(String),
}


/// A record of CPU timings: at least four tick counters
pub open spec fn cpu_record_ok(d: Seq<Seq<u8>>) -> bool {
    d.len() >= 4 && cpu::counters(d, d.len() as int)
}

/// A record of paging counters: incoming and outgoing page counts
pub open spec fn paging_record_ok(d: Seq<Seq<u8>>) -> bool {
    &&& d.len() >= 2
    &&& parses_as_u64(d[0])
    &&& parses_as_u64(d[1])
}

/// A record of interrupt counters: a total, then `n` detailed counters
pub open spec fn interrupts_record_ok(d: Seq<Seq<u8>>, n: int) -> bool {
    &&& d.len() >= 1
    &&& parses_as_u64(d[0])
    &&& cpu::counters(d.drop_first(), n)
}

/// A record with a single counter which fits in `max`
pub open spec fn scalar_record_ok(d: Seq<Seq<u8>>, max: int) -> bool {
    d.len() >= 1 && parse_unsigned(d[0], max) is Some
}

/// Whether a header announces the statistics of one CPU thread
pub open spec fn is_thread_header(h: Seq<u8>) -> bool {
    supported_kind(h) matches Some(RecordKind::CPUThread(_))
}

/// Number of lines before line `i` which hold statistics of one CPU thread
pub open spec fn thread_lines_before(ls: Seq<Seq<u8>>, i: int) -> int
    decreases i,
{
    if i <= 0 {
        0
    } else {
        thread_lines_before(ls, i - 1) + if is_thread_header(header_of(ls[i - 1])) {
            1int
        } else {
            0
        }
    }
}

/// Number of kinds before index `i` which are statistics of one CPU thread
pub open spec fn threads_before(t: Seq<RecordKind>, i: int) -> int
    decreases i,
{
    if i <= 0 {
        0
    } else {
        threads_before(t, i - 1) + if t[i - 1] is CPUThread {
            1int
        } else {
            0
        }
    }
}

/// Whether line i is the last line of the layout `t` with its kind (the
/// one that its member is set up from)
pub open spec fn last_at(t: Seq<RecordKind>, i: int) -> bool {
    &&& 0 <= i < t.len()
    &&& forall|j: int| i < j < t.len() ==> #[trigger] t[j] != t[i]
}

/// Whether the i-th kind of a list is the only one of its value
pub open spec fn unique_at(t: Seq<RecordKind>, i: int) -> bool {
    &&& 0 <= i < t.len()
    &&& forall|j: int| 0 <= j < t.len() && j != i ==> #[trigger] t[j] != t[i]
}

/// What a first sample of /proc/stat must hold for a data store to be set up
/// from it: a header on every line, which gives a kind that can be told; the
/// counters that each kind of record is set up from; and per-thread CPU
/// statistics numbered in order, from thread 0 upwards.
pub open spec fn setup_sample_ok(ls: Seq<Seq<u8>>) -> bool {
    &&& schema_readable(ls)
    &&& forall|i: int| 0 <= i < ls.len() ==> setup_record_ok(#[trigger] ls[i])
    &&& forall|i: int|
        0 <= i < ls.len() ==> (supported_kind(header_of(#[trigger] ls[i])) matches Some(
            RecordKind::CPUThread(id),
        ) ==> id == thread_lines_before(ls, i))
}

/// The counters that a record must hold for a data store to be set up from it
pub open spec fn setup_record_ok(line: Seq<u8>) -> bool {
    let d = data_of(line);
    match supported_kind(header_of(line)) {
        Some(RecordKind::CPUTotal) => cpu_record_ok(d),
        Some(RecordKind::CPUThread(_)) => cpu_record_ok(d),
        Some(RecordKind::PagingTotal) => paging_record_ok(d),
        Some(RecordKind::PagingSwap) => paging_record_ok(d),
        Some(RecordKind::InterruptsHW) => interrupts_record_ok(d, d.len() - 1),
        Some(RecordKind::InterruptsSW) => interrupts_record_ok(d, d.len() - 1),
        Some(RecordKind::BootTime) => d.len() >= 1 && parse_i64_spec(d[0]) is Some,
        _ => true,
    }
}

proof fn lemma_push_contains(t: Seq<RecordKind>, x: RecordKind, k: RecordKind)
    ensures
        t.push(x).contains(k) <==> (t.contains(k) || x == k),
{
    if t.contains(k) {
        let i = choose|i: int| 0 <= i < t.len() && t[i] == k;
        assert(t.push(x)[i] == k);
    }
    if x == k {
        assert(t.push(x)[t.len() as int] == k);
    }
    if t.push(x).contains(k) {
        let j = choose|j: int| 0 <= j < t.push(x).len() && t.push(x)[j] == k;
        if j < t.len() {
            assert(t[j] == k);
        }
    }
}

proof fn lemma_threads_before_push(t: Seq<RecordKind>, x: RecordKind, i: int)
    requires
        0 <= i <= t.len(),
    ensures
        threads_before(t.push(x), i) == threads_before(t, i),
    decreases i,
{
    if i > 0 {
        lemma_threads_before_push(t, x, i - 1);
        assert(t.push(x)[i - 1] == t[i - 1]);
    }
}

/// Thread statistics get increasing numbers, so no two lines share one
proof fn lemma_threads_before_grows(t: Seq<RecordKind>, i: int, j: int)
    requires
        0 <= i < j <= t.len(),
        t[i] is CPUThread,
    ensures
        threads_before(t, j) > threads_before(t, i),
    decreases j,
{
    if j > i + 1 {
        lemma_threads_before_grows(t, i, j - 1);
    }
}

/// Data samples from /proc/stat, in structure-of-array layout
///
/// Courtesy of Linux's total lack of promises regarding the variability of
/// /proc/stat across hardware architectures, or even on a given system
/// depending on kernel configuration, most entries of this struct are
/// considered optional at this point...
#[derive(Debug, PartialEq)]
pub struct Data {
    /// Total CPU usage stats, aggregated across all hardware threads
    pub all_cpus: Option<cpu::Data>,
    /// Per-CPU usage statistics, featuring one entry per hardware CPU thread.
    /// An empty Vec here has the same meaning as a None in other entries: the
    /// per-thread breakdown of CPU usage was not provided by the kernel.
    pub each_thread: Vec<cpu::Data>,
    /// Number of pages that the system paged in and out from disk, overall...
    pub paging: Option<paging::Data>,
    /// ...and narrowing it down to swapping activity in particular
    pub swapping: Option<paging::Data>,
    /// Statistics on the number of hardware interrupts that were serviced
    pub interrupts: Option<interrupts::Data>,
    /// Number of context switches that the system underwent since boot
    pub context_switches: Option<Vec<u64>>,
    /// Boot time, in seconds since the UNIX UTC epoch (only collected once)
    pub boot_time: Option<i64>,
    /// Number of process forks that occurred since boot
    pub process_forks: Option<Vec<u32>>,
    /// Number of processes in a runnable state (since Linux 2.5.45)
    pub runnable_processes: Option<Vec<u16>>,
    /// Number of processes blocked waiting for I/O (since Linux 2.5.45)
    pub blocked_processes: Option<Vec<u16>>,
    /// Statistics on the number of softirqs that were serviced. These use the
    /// same layout as hardware interrupt stats, where softirqs are enumerated
    /// in the same order as in /proc/softirq.
    pub softirqs: Option<interrupts::Data>,
    /// How each line of /proc/stat maps to the members of this struct. This
    /// builds on the assumption that the kernel configuration (and thus the
    /// layout of /proc/stat) will not change over the course of a series of
    /// sampling measurements.
    pub line_target: Vec<RecordKind>,
    /// Number of clock ticks in one second, which CPU timings are counted in
    pub ticks_per_sec: u64,
}

impl Data {
    /// Internal consistency of the store: each member exists exactly when a
    /// line of the file maps to it, per-thread statistics are numbered in
    /// order, and each member is itself consistent.
    pub open spec fn wf(self) -> bool {
        let t = self.line_target@;
        &&& self.ticks_per_sec > 0
        &&& (self.all_cpus is Some <==> t.contains(RecordKind::CPUTotal))
        &&& (self.all_cpus matches Some(c) ==> c.wf())
        &&& self.each_thread@.len() == threads_before(t, t.len() as int)
        &&& self.each_thread@.len() <= 65536
        &&& forall|i: int|
            0 <= i < t.len() ==> ((#[trigger] t[i]) matches RecordKind::CPUThread(id) ==> id
                == threads_before(t, i))
        &&& forall|m: int| 0 <= m < self.each_thread@.len() ==> (#[trigger] self.each_thread@[m]).wf()
        &&& (self.paging is Some <==> t.contains(RecordKind::PagingTotal))
        &&& (self.paging matches Some(p) ==> p.wf())
        &&& (self.swapping is Some <==> t.contains(RecordKind::PagingSwap))
        &&& (self.swapping matches Some(p) ==> p.wf())
        &&& (self.interrupts is Some <==> t.contains(RecordKind::InterruptsHW))
        &&& (self.interrupts matches Some(d) ==> d.wf())
        &&& (self.context_switches is Some <==> t.contains(RecordKind::ContextSwitches))
        &&& (self.boot_time is Some <==> t.contains(RecordKind::BootTime))
        &&& (self.process_forks is Some <==> t.contains(RecordKind::ProcessForks))
        &&& (self.runnable_processes is Some <==> t.contains(RecordKind::ProcessesRunnable))
        &&& (self.blocked_processes is Some <==> t.contains(RecordKind::ProcessesBlocked))
        &&& (self.softirqs is Some <==> t.contains(RecordKind::InterruptsSW))
        &&& (self.softirqs matches Some(d) ==> d.wf())
    }

    /// Whether every member of the store holds `n` samples
    pub open spec fn all_lens(self, n: int) -> bool {
        &&& (self.all_cpus matches Some(c) ==> c.user_time@.len() == n)
        &&& forall|m: int|
            0 <= m < self.each_thread@.len() ==> (#[trigger] self.each_thread@[m]).user_time@.len()
                == n
        &&& (self.paging matches Some(p) ==> p.incoming@.len() == n)
        &&& (self.swapping matches Some(p) ==> p.incoming@.len() == n)
        &&& (self.interrupts matches Some(d) ==> d.total@.len() == n)
        &&& (self.context_switches matches Some(v) ==> v@.len() == n)
        &&& (self.process_forks matches Some(v) ==> v@.len() == n)
        &&& (self.runnable_processes matches Some(v) ==> v@.len() == n)
        &&& (self.blocked_processes matches Some(v) ==> v@.len() == n)
        &&& (self.softirqs matches Some(d) ==> d.total@.len() == n)
    }

    /// Number of samples in the store, as told by its first member
    pub open spec fn sample_len(self) -> int {
        if self.all_cpus is Some {
            self.all_cpus->0.user_time@.len() as int
        } else if self.paging is Some {
            self.paging->0.incoming@.len() as int
        } else if self.swapping is Some {
            self.swapping->0.incoming@.len() as int
        } else if self.interrupts is Some {
            self.interrupts->0.total@.len() as int
        } else if self.context_switches is Some {
            self.context_switches->0@.len() as int
        } else if self.process_forks is Some {
            self.process_forks->0@.len() as int
        } else if self.runnable_processes is Some {
            self.runnable_processes->0@.len() as int
        } else if self.blocked_processes is Some {
            self.blocked_processes->0@.len() as int
        } else if self.softirqs is Some {
            self.softirqs->0.total@.len() as int
        } else {
            0
        }
    }

    /// How the member that records of kind `k` go to was set up from the
    /// data columns `d` of such a record
    pub open spec fn set_up_from(self, k: RecordKind, d: Seq<Seq<u8>>) -> bool {
        match k {
            RecordKind::CPUTotal => self.all_cpus matches Some(c) && c.is_empty_for(d.len() as int),
            RecordKind::CPUThread(id) => self.each_thread@[id as int].is_empty_for(d.len() as int),
            RecordKind::InterruptsHW => self.interrupts matches Some(i) && i.details@.len()
                == d.len() - 1,
            RecordKind::InterruptsSW => self.softirqs matches Some(i) && i.details@.len() == d.len()
                - 1,
            RecordKind::BootTime => self.boot_time matches Some(b) && parse_i64_spec(d[0]) == Some(
                b as int,
            ),
            _ => true,
        }
    }

    /// Whether the member that records of kind `k` go to is the same in
    /// `self` and `o`
    pub open spec fn same_member(self, o: Self, k: RecordKind) -> bool {
        match k {
            RecordKind::CPUTotal => o.all_cpus == self.all_cpus,
            RecordKind::CPUThread(id) => (id as int) < self.each_thread@.len() ==> o.each_thread@[id as int]
                == self.each_thread@[id as int],
            RecordKind::PagingTotal => o.paging == self.paging,
            RecordKind::PagingSwap => o.swapping == self.swapping,
            RecordKind::InterruptsHW => o.interrupts == self.interrupts,
            RecordKind::ContextSwitches => o.context_switches == self.context_switches,
            RecordKind::BootTime => o.boot_time == self.boot_time,
            RecordKind::ProcessForks => o.process_forks == self.process_forks,
            RecordKind::ProcessesRunnable => o.runnable_processes == self.runnable_processes,
            RecordKind::ProcessesBlocked => o.blocked_processes == self.blocked_processes,
            RecordKind::InterruptsSW => o.softirqs == self.softirqs,
            RecordKind::Unsupported(_) => true,
        }
    }

    /// Whether `o` only differs from `self` in the member that records of
    /// kind `k` go to
    pub open spec fn same_except(self, o: Self, k: RecordKind) -> bool {
        &&& o.each_thread@.len() == self.each_thread@.len()
        &&& forall|k2: RecordKind| k2 != k ==> #[trigger] self.same_member(o, k2)
    }

    /// Whether the member that records of kind `k` go to was just set up
    /// from the data columns `d` of such a record, and holds no sample
    pub open spec fn fresh_member(self, k: RecordKind, d: Seq<Seq<u8>>) -> bool {
        &&& self.set_up_from(k, d)
        &&& match k {
            RecordKind::CPUTotal => self.all_cpus matches Some(c) && c.wf() && c.user_time@.len()
                == 0,
            RecordKind::CPUThread(id) => (id as int) < self.each_thread@.len()
                && self.each_thread@[id as int].wf() && self.each_thread@[id as int].user_time@.len()
                == 0,
            RecordKind::PagingTotal => self.paging matches Some(p) && p.wf() && p.incoming@.len()
                == 0,
            RecordKind::PagingSwap => self.swapping matches Some(p) && p.wf() && p.incoming@.len()
                == 0,
            RecordKind::InterruptsHW => self.interrupts matches Some(x) && x.wf() && x.total@.len()
                == 0,
            RecordKind::ContextSwitches => self.context_switches matches Some(v) && v@.len() == 0,
            RecordKind::BootTime => self.boot_time is Some,
            RecordKind::ProcessForks => self.process_forks matches Some(v) && v@.len() == 0,
            RecordKind::ProcessesRunnable => self.runnable_processes matches Some(v) && v@.len()
                == 0,
            RecordKind::ProcessesBlocked => self.blocked_processes matches Some(v) && v@.len()
                == 0,
            RecordKind::InterruptsSW => self.softirqs matches Some(x) && x.wf() && x.total@.len()
                == 0,
            RecordKind::Unsupported(_) => true,
        }
    }

    /// Setting up the member for the i-th line of a first sample keeps the
    /// store consistent, with one more line mapped
    proof fn lemma_setup_step(old: Self, new: Self, ls: Seq<Seq<u8>>, i: int, k: RecordKind)
        requires
            0 <= i < ls.len(),
            setup_sample_ok(ls),
            is_kind_of(header_of(ls[i]), k),
            old.wf(),
            old.all_lens(0),
            old.line_target@.len() == i,
            old.each_thread@.len() == thread_lines_before(ls, i),
            forall|j: int| 0 <= j < i ==> is_kind_of(header_of(ls[j]), #[trigger] old.line_target@[j]),
            forall|j: int|
                #![trigger old.line_target@[j]]
                0 <= j < i && (forall|j2: int|
                    j < j2 < i ==> #[trigger] old.line_target@[j2] != old.line_target@[j])
                    ==> old.set_up_from(old.line_target@[j], data_of(ls[j])),
            new.line_target@ == old.line_target@.push(k),
            new.ticks_per_sec == old.ticks_per_sec,
            forall|k2: RecordKind| k2 != k ==> #[trigger] old.same_member(new, k2),
            k is CPUThread ==> new.each_thread@.len() == old.each_thread@.len() + 1,
            !(k is CPUThread) ==> new.each_thread@.len() == old.each_thread@.len(),
            new.fresh_member(k, data_of(ls[i])),
        ensures
            new.wf(),
            new.all_lens(0),
            new.each_thread@.len() == thread_lines_before(ls, i + 1),
            forall|j: int| 0 <= j < i + 1 ==> is_kind_of(header_of(ls[j]), #[trigger] new.line_target@[j]),
            forall|j: int|
                #![trigger new.line_target@[j]]
                0 <= j < i + 1 && (forall|j2: int|
                    j < j2 < i + 1 ==> #[trigger] new.line_target@[j2] != new.line_target@[j])
                    ==> new.set_up_from(new.line_target@[j], data_of(ls[j])),
    {
        let t = old.line_target@;
        let t2 = new.line_target@;
        let h = header_of(ls[i]);
        assert(t2.len() == i + 1);
        assert(is_thread_header(h) <==> k is CPUThread);
        lemma_push_contains(t, k, RecordKind::CPUTotal);
        lemma_push_contains(t, k, RecordKind::PagingTotal);
        lemma_push_contains(t, k, RecordKind::PagingSwap);
        lemma_push_contains(t, k, RecordKind::InterruptsHW);
        lemma_push_contains(t, k, RecordKind::ContextSwitches);
        lemma_push_contains(t, k, RecordKind::BootTime);
        lemma_push_contains(t, k, RecordKind::ProcessForks);
        lemma_push_contains(t, k, RecordKind::ProcessesRunnable);
        lemma_push_contains(t, k, RecordKind::ProcessesBlocked);
        lemma_push_contains(t, k, RecordKind::InterruptsSW);
        lemma_threads_before_push(t, k, i);
        assert(threads_before(t2, i + 1) == threads_before(t, i) + if k is CPUThread { 1int } else { 0 });
        if k != RecordKind::CPUTotal {
            assert(old.same_member(new, RecordKind::CPUTotal));
        }
        if k != RecordKind::PagingTotal {
            assert(old.same_member(new, RecordKind::PagingTotal));
        }
        if k != RecordKind::PagingSwap {
            assert(old.same_member(new, RecordKind::PagingSwap));
        }
        if k != RecordKind::InterruptsHW {
            assert(old.same_member(new, RecordKind::InterruptsHW));
        }
        if k != RecordKind::ContextSwitches {
            assert(old.same_member(new, RecordKind::ContextSwitches));
        }
        if k != RecordKind::BootTime {
            assert(old.same_member(new, RecordKind::BootTime));
        }
        if k != RecordKind::ProcessForks {
            assert(old.same_member(new, RecordKind::ProcessForks));
        }
        if k != RecordKind::ProcessesRunnable {
            assert(old.same_member(new, RecordKind::ProcessesRunnable));
        }
        if k != RecordKind::ProcessesBlocked {
            assert(old.same_member(new, RecordKind::ProcessesBlocked));
        }
        if k != RecordKind::InterruptsSW {
            assert(old.same_member(new, RecordKind::InterruptsSW));
        }
        if let RecordKind::CPUThread(id) = k {
            assert(id == threads_before(t2, i));
            assert(id as int == old.each_thread@.len());
        }
        assert forall|j: int| 0 <= j < t2.len() implies ((#[trigger] t2[j]) matches RecordKind::CPUThread(id) ==> id
            == threads_before(t2, j)) by {
            if j < i {
                assert(t2[j] == t[j]);
                lemma_threads_before_push(t, k, j);
            } else {
                assert(t2[j] == k);
            }
        }
        assert forall|m: int| 0 <= m < new.each_thread@.len() implies (#[trigger] new.each_thread@[m]).wf()
            && new.each_thread@[m].user_time@.len() == 0 by {
            let m16 = m as u16;
            if m < old.each_thread@.len() {
                assert(m16 as int == m);
                if let RecordKind::CPUThread(id) = k {
                    assert(id == threads_before(t2, i));
                    assert(id as int == old.each_thread@.len());
                }
                assert(old.same_member(new, RecordKind::CPUThread(m16)));
            } else {
                assert(k is CPUThread);
                if let RecordKind::CPUThread(id) = k {
                    assert(id == threads_before(t2, i));
                    assert(id as int == m);
                }
            }
        }
        assert forall|j: int| 0 <= j < i + 1 implies is_kind_of(header_of(ls[j]), #[trigger] t2[j]) by {
            if j < i {
                assert(t2[j] == t[j]);
            }
        }
        assert forall|j: int|
            #![trigger t2[j]]
            0 <= j < i + 1 && (forall|j2: int| j < j2 < i + 1 ==> #[trigger] t2[j2] != t2[j])
            implies new.set_up_from(t2[j], data_of(ls[j])) by {
            if j < i {
                assert(t2[j] == t[j]);
                assert(t2[i] == k);
                assert(t[j] != k);
                assert forall|j2: int| j < j2 < i implies #[trigger] t[j2] != t[j] by {
                    assert(t2[j2] == t[j2]);
                }
                assert(old.set_up_from(t[j], data_of(ls[j])));
                assert(old.same_member(new, t[j]));
                if let RecordKind::CPUThread(id) = t[j] {
                    assert(id == threads_before(t, j));
                    lemma_threads_before_grows(t, j, i);
                }
            }
        }
    }

    /// Tell whether a data store can be set up from a first sample of
    /// /proc/stat: each record has a kind that can be told and holds the
    /// counters of its kind, and CPU threads are numbered in order
    pub fn check_setup(file_contents: &str) -> (r: bool)
        ensures
            r == setup_sample_ok(lines(bytes_of(file_contents))),
    {
        let mut file_lines = SplitLinesBySpace::new(file_contents);
        let ghost ls = lines(bytes_of(file_contents));
        let ghost mut done: int = 0;
        let mut threads: u32 = 0;
        loop
            invariant
                file_lines.wf(),
                ls == lines(bytes_of(file_contents)),
                0 <= done <= ls.len(),
                file_lines.remaining_lines() == ls.skip(done),
                threads == thread_lines_before(ls, done),
                threads <= 65536,
                forall|i: int|
                    0 <= i < done ==> {
                        &&& words(#[trigger] ls[i]).len() > 0
                        &&& kind_defined(header_of(ls[i]))
                        &&& setup_record_ok(ls[i])
                        &&& (supported_kind(header_of(ls[i])) matches Some(RecordKind::CPUThread(id))
                            ==> id == thread_lines_before(ls, i))
                    },
            ensures
                done == ls.len(),
            decreases ls.len() - done,
        {
            match file_lines.next() {
                Some(columns) => {
                    assert(ls.skip(done)[0] == ls[done]);
                    let ws = collect_words(columns);
                    match setup_words_kind(&ws, Ghost(ls[done])) {
                        None => {
                            return false;
                        },
                        Some(kind) => {
                            match kind {
                                RecordKind::CPUThread(id) => {
                                    if id as u32 != threads {
                                        return false;
                                    }
                                    threads = threads + 1;
                                },
                                _ => {},
                            }
                        },
                    }
                    proof {
                        assert(ls.skip(done + 1) =~= ls.skip(done).drop_first());
                        done = done + 1;
                    }
                },
                None => {
                    break;
                },
            }
        }
        true
    }

    /// Create a new statistical data store, using a first sample to know the
    /// structure of /proc/stat on this system, and the number of clock ticks
    /// in one second to interpret CPU timings.
    pub fn new(stream: RecordStream, ticks_per_sec: u64) -> (r: Self)
        requires
            stream.wf(),
            ticks_per_sec > 0,
            setup_sample_ok(stream.remaining()),
        ensures
            r.wf(),
            r.ticks_per_sec == ticks_per_sec,
            r.all_lens(0),
            r.sample_len() == 0,
            r.line_target@.len() == stream.remaining().len(),
            forall|i: int|
                0 <= i < stream.remaining().len() ==> is_kind_of(
                    header_of(stream.remaining()[i]),
                    #[trigger] r.line_target@[i],
                ),
            forall|i: int|
                #![trigger r.line_target@[i]]
                last_at(r.line_target@, i) ==> r.set_up_from(
                    r.line_target@[i],
                    data_of(stream.remaining()[i]),
                ),
    {
        let ghost ls = stream.remaining();
        let mut stream = stream;
        let mut data = Data {
            all_cpus: None,
            each_thread: Vec::new(),
            paging: None,
            swapping: None,
            interrupts: None,
            context_switches: None,
            boot_time: None,
            process_forks: None,
            runnable_processes: None,
            blocked_processes: None,
            softirqs: None,
            line_target: Vec::new(),
            ticks_per_sec,
        };
        let ghost mut i: int = 0;
        loop
            invariant
                stream.wf(),
                0 <= i <= ls.len(),
                stream.remaining() == ls.skip(i),
                setup_sample_ok(ls),
                data.wf(),
                data.ticks_per_sec == ticks_per_sec,
                data.all_lens(0),
                data.line_target@.len() == i,
                data.each_thread@.len() == thread_lines_before(ls, i),
                forall|j: int|
                    0 <= j < i ==> is_kind_of(header_of(ls[j]), #[trigger] data.line_target@[j]),
                forall|j: int|
                    #![trigger data.line_target@[j]]
                    0 <= j < i && (forall|j2: int|
                        j < j2 < i ==> #[trigger] data.line_target@[j2] != data.line_target@[j])
                        ==> data.set_up_from(data.line_target@[j], data_of(ls[j])),
            ensures
                i == ls.len(),
            decreases ls.len() - i,
        {
            proof {
                if i < ls.len() {
                    assert(stream.remaining()[0] == ls[i]);
                    assert(words(ls[i]).len() > 0);
                }
            }
            match stream.next() {
                Some(record) => {
                    let ghost line = ls[i];
                    let ghost d = data_of(line);
                    let ghost old_data = data;
                    proof {
                        assert(setup_record_ok(ls[i]));
                        assert(record.data() == d);
                    }
                    let record_kind = record.kind();
                    match &record_kind {
                        RecordKind::CPUTotal => {
                            data.all_cpus = Some(cpu::Data::new(record.parse_cpu(ticks_per_sec)));
                        },
                        RecordKind::CPUThread(_) => {
                            data.each_thread.push(cpu::Data::new(record.parse_cpu(ticks_per_sec)));
                        },
                        RecordKind::PagingTotal => {
                            data.paging = Some(paging::Data::new(record.parse_paging()));
                        },
                        RecordKind::PagingSwap => {
                            data.swapping = Some(paging::Data::new(record.parse_paging()));
                        },
                        RecordKind::InterruptsHW => {
                            data.interrupts = Some(interrupts::Data::new(record.parse_interrupts()));
                        },
                        RecordKind::ContextSwitches => {
                            data.context_switches = Some(Vec::new());
                        },
                        RecordKind::BootTime => {
                            data.boot_time = Some(record.parse_boot_time());
                        },
                        RecordKind::ProcessForks => {
                            data.process_forks = Some(Vec::new());
                        },
                        RecordKind::ProcessesRunnable => {
                            data.runnable_processes = Some(Vec::new());
                        },
                        RecordKind::ProcessesBlocked => {
                            data.blocked_processes = Some(Vec::new());
                        },
                        RecordKind::InterruptsSW => {
                            data.softirqs = Some(interrupts::Data::new(record.parse_interrupts()));
                        },
                        RecordKind::Unsupported(_) => {},
                    }
                    let ghost mid_data = data;
                    proof {
                        assert(is_kind_of(header_of(ls[i]), record_kind));
                        assert(mid_data.fresh_member(record_kind, d));
                        assert forall|k2: RecordKind| k2 != record_kind implies #[trigger] old_data.same_member(mid_data, k2) by {}
                    }
                    data.line_target.push(record_kind);
                    proof {
                        Self::lemma_setup_step(old_data, data, ls, i, record_kind);
                        assert(ls.skip(i + 1) =~= ls.skip(i).drop_first());
                        i = i + 1;
                    }
                },
                None => {
                    break;
                },
            }
        }
        data
    }
}


/// A copy of a record kind
fn copy_kind(k: &RecordKind) -> (r: RecordKind)
    ensures
        r == *k,
{
    match k {
        RecordKind::CPUTotal => RecordKind::CPUTotal,
        RecordKind::CPUThread(id) => RecordKind::CPUThread(*id),
        RecordKind::PagingTotal => RecordKind::PagingTotal,
        RecordKind::PagingSwap => RecordKind::PagingSwap,
        RecordKind::InterruptsHW => RecordKind::InterruptsHW,
        RecordKind::ContextSwitches => RecordKind::ContextSwitches,
        RecordKind::BootTime => RecordKind::BootTime,
        RecordKind::ProcessForks => RecordKind::ProcessForks,
        RecordKind::ProcessesRunnable => RecordKind::ProcessesRunnable,
        RecordKind::ProcessesBlocked => RecordKind::ProcessesBlocked,
        RecordKind::InterruptsSW => RecordKind::InterruptsSW,
        RecordKind::Unsupported(header) => RecordKind::Unsupported(header.clone()),
    }
}

/// Per-thread statistics with number `m` come from some line of the file
proof fn lemma_thread_line_exists(t: Seq<RecordKind>, n: int, m: int)
    requires
        0 <= n <= t.len(),
        0 <= m < threads_before(t, n),
    ensures
        exists|i: int| 0 <= i < n && (#[trigger] t[i]) is CPUThread && threads_before(t, i) == m,
    decreases n,
{
    if threads_before(t, n - 1) > m {
        lemma_thread_line_exists(t, n - 1, m);
        let i = choose|i: int| 0 <= i < n - 1 && (#[trigger] t[i]) is CPUThread && threads_before(t, i) == m;
        assert(0 <= i < n && t[i] is CPUThread && threads_before(t, i) == m);
    } else {
        assert(t[n - 1] is CPUThread && threads_before(t, n - 1) == m);
    }
}

impl Data {
    /// What the i-th line of a new sample must hold for its record to be
    /// pushed into the member that records of kind `k` go to: a header that
    /// matches the kind, and the counters that the member records.
    pub open spec fn sample_record_ok(self, k: RecordKind, line: Seq<u8>) -> bool {
        let h = header_of(line);
        let d = data_of(line);
        &&& words(line).len() > 0
        &&& has_kind_defined(h, k)
        &&& header_has_kind(h, k)
        &&& match k {
            RecordKind::CPUTotal => cpu::counters(d, self.all_cpus->0.timer_count()),
            RecordKind::CPUThread(id) => cpu::counters(d, self.each_thread@[id as int].timer_count()),
            RecordKind::PagingTotal => paging_record_ok(d),
            RecordKind::PagingSwap => paging_record_ok(d),
            RecordKind::InterruptsHW => interrupts_record_ok(d, self.interrupts->0.details@.len() as int),
            RecordKind::InterruptsSW => interrupts_record_ok(d, self.softirqs->0.details@.len() as int),
            RecordKind::ContextSwitches => scalar_record_ok(d, u64::MAX as int),
            RecordKind::ProcessForks => scalar_record_ok(d, u32::MAX as int),
            RecordKind::ProcessesRunnable => scalar_record_ok(d, u16::MAX as int),
            RecordKind::ProcessesBlocked => scalar_record_ok(d, u16::MAX as int),
            _ => true,
        }
    }

    /// Whether `o` has the same layout as `self`: same line mapping, members
    /// and CPU timers, and the same number of interrupt counters
    pub open spec fn same_shape(self, o: Self) -> bool {
        &&& o.line_target@ == self.line_target@
        &&& o.ticks_per_sec == self.ticks_per_sec
        &&& o.each_thread@.len() == self.each_thread@.len()
        &&& (self.all_cpus matches Some(c) ==> o.all_cpus matches Some(c2) && c2.timer_count()
            == c.timer_count())
        &&& forall|m: int|
            0 <= m < self.each_thread@.len() ==> (#[trigger] o.each_thread@[m]).timer_count()
                == self.each_thread@[m].timer_count()
        &&& (self.interrupts matches Some(x) ==> o.interrupts matches Some(x2) && x2.details@.len()
            == x.details@.len())
        &&& (self.softirqs matches Some(x) ==> o.softirqs matches Some(x2) && x2.details@.len()
            == x.details@.len())
    }

    /// Whether `o` holds one more sample than `self` in the member that
    /// records of kind `k` go to, made of the data columns `d` of such a
    /// record
    pub open spec fn pushed_record(self, o: Self, k: RecordKind, d: Seq<Seq<u8>>) -> bool {
        let tps = self.ticks_per_sec as int;
        match k {
            RecordKind::CPUTotal => self.all_cpus matches Some(c) && o.all_cpus matches Some(c2)
                && c.pushed(c2, d, tps),
            RecordKind::CPUThread(id) => self.each_thread@[id as int].pushed(
                o.each_thread@[id as int],
                d,
                tps,
            ),
            RecordKind::PagingTotal => self.paging matches Some(p) && o.paging matches Some(p2)
                && p.pushed(p2, u64_value(d[0]), u64_value(d[1])),
            RecordKind::PagingSwap => self.swapping matches Some(p) && o.swapping matches Some(p2)
                && p.pushed(p2, u64_value(d[0]), u64_value(d[1])),
            RecordKind::InterruptsHW => self.interrupts matches Some(x) && o.interrupts matches Some(
                x2,
            ) && x.pushed(x2, u64_value(d[0]), d.drop_first()),
            RecordKind::ContextSwitches => self.context_switches matches Some(v)
                && o.context_switches matches Some(v2) && v2@ == v@.push(u64_value(d[0])),
            RecordKind::BootTime => o.boot_time == self.boot_time,
            RecordKind::ProcessForks => self.process_forks matches Some(v) && o.process_forks matches Some(
                v2,
            ) && v2@ == v@.push(parse_unsigned(d[0], u32::MAX as int)->0 as u32),
            RecordKind::ProcessesRunnable => self.runnable_processes matches Some(v)
                && o.runnable_processes matches Some(v2) && v2@ == v@.push(
                parse_unsigned(d[0], u16::MAX as int)->0 as u16,
            ),
            RecordKind::ProcessesBlocked => self.blocked_processes matches Some(v)
                && o.blocked_processes matches Some(v2) && v2@ == v@.push(
                parse_unsigned(d[0], u16::MAX as int)->0 as u16,
            ),
            RecordKind::InterruptsSW => self.softirqs matches Some(x) && o.softirqs matches Some(x2)
                && x.pushed(x2, u64_value(d[0]), d.drop_first()),
            RecordKind::Unsupported(_) => true,
        }
    }

    /// Parse one record of a new sample and add its data to the member
    /// that records of its kind go to
    fn push_record(&mut self, record: Record, target: &RecordKind, Ghost(line): Ghost<Seq<u8>>)
        requires
            old(self).wf(),
            record.data_columns.is_open(),
            bytes_of(record.header) == header_of(line),
            record.data() == data_of(line),
            old(self).line_target@.contains(*target),
            old(self).sample_record_ok(*target, line),
            target matches RecordKind::CPUThread(id) ==> (id as int) < old(self).each_thread@.len(),
            *target is InterruptsHW ==> old(self).interrupts->0.total@.len() < usize::MAX,
            *target is InterruptsSW ==> old(self).softirqs->0.total@.len() < usize::MAX,
        ensures
            final(self).wf(),
            old(self).same_shape(*final(self)),
            old(self).same_except(*final(self), *target),
            old(self).pushed_record(*final(self), *target, data_of(line)),
            SplitLinesBySpace::same_lines(*old(record.data_columns.parent), *final(record.data_columns.parent)),
    {
        // Check that the record structure of the file has not changed
        let is_expected = record.has_kind(target);
        assert(is_expected);
        let ghost d = data_of(line);
        let ghost old_self = *self;
        match target {
            RecordKind::CPUTotal => {
                let mut c = self.all_cpus.take().unwrap();
                c.push(record.parse_cpu(self.ticks_per_sec));
                self.all_cpus = Some(c);
            },
            RecordKind::CPUThread(thread_id) => {
                let tps = self.ticks_per_sec;
                let fields = record.parse_cpu(tps);
                self.each_thread[*thread_id as usize].push(fields);
                assert(self.each_thread@ =~= old_self.each_thread@.update(
                    *thread_id as int,
                    self.each_thread@[*thread_id as int],
                ));
            },
            RecordKind::PagingTotal => {
                let mut p = self.paging.take().unwrap();
                p.push(record.parse_paging());
                self.paging = Some(p);
            },
            RecordKind::PagingSwap => {
                let mut p = self.swapping.take().unwrap();
                p.push(record.parse_paging());
                self.swapping = Some(p);
            },
            RecordKind::InterruptsHW => {
                let mut x = self.interrupts.take().unwrap();
                x.push(record.parse_interrupts());
                self.interrupts = Some(x);
            },
            RecordKind::ContextSwitches => {
                let value = record.parse_context_switches();
                let mut v = self.context_switches.take().unwrap();
                v.push(value);
                self.context_switches = Some(v);
            },
            RecordKind::BootTime => {
                // Nothing to do, we only measure boot time once
            },
            RecordKind::ProcessForks => {
                let value = record.parse_process_forks();
                let mut v = self.process_forks.take().unwrap();
                v.push(value);
                self.process_forks = Some(v);
            },
            RecordKind::ProcessesRunnable => {
                let value = record.parse_processes();
                let mut v = self.runnable_processes.take().unwrap();
                v.push(value);
                self.runnable_processes = Some(v);
            },
            RecordKind::ProcessesBlocked => {
                let value = record.parse_processes();
                let mut v = self.blocked_processes.take().unwrap();
                v.push(value);
                self.blocked_processes = Some(v);
            },
            RecordKind::InterruptsSW => {
                let mut x = self.softirqs.take().unwrap();
                x.push(record.parse_interrupts());
                self.softirqs = Some(x);
            },
            RecordKind::Unsupported(_) => {},
        }
        proof {
            assert forall|k2: RecordKind| k2 != *target implies #[trigger] old_self.same_member(*self, k2) by {
                if let RecordKind::CPUThread(m) = k2 {
                    if let RecordKind::CPUThread(id) = *target {
                        assert(m != id);
                    }
                }
            }
        }
    }
}


impl Data {
    /// What a new sample of /proc/stat must hold to be added to the store:
    /// at least as many lines as the first sample, each of which has the
    /// kind of the matching line of the first sample and the counters that
    /// its member records; and room for the interrupt counts.
    pub open spec fn sample_ok(self, ls: Seq<Seq<u8>>) -> bool {
        let t = self.line_target@;
        &&& ls.len() >= t.len()
        &&& forall|i: int| 0 <= i < t.len() ==> self.sample_record_ok(#[trigger] t[i], ls[i])
        &&& (self.interrupts matches Some(x) ==> x.total@.len() + t.len() < usize::MAX)
        &&& (self.softirqs matches Some(x) ==> x.total@.len() + t.len() < usize::MAX)
    }

    /// Tell whether the words of a line make a record that can be pushed into
    /// the member which the i-th line of the file maps to
    fn sample_words_ok(&self, i: usize, ws: &Vec<&str>, Ghost(line): Ghost<Seq<u8>>) -> (r: bool)
        requires
            self.wf(),
            i < self.line_target@.len(),
            ws@.len() == words(line).len(),
            forall|j: int| 0 <= j < ws@.len() ==> bytes_of(#[trigger] ws@[j]) == words(line)[j],
        ensures
            r == self.sample_record_ok(self.line_target@[i as int], line),
    {
        let ghost t = self.line_target@;
        let ghost w = words(line);
        let ghost d = data_of(line);
        let k = &self.line_target[i];
        assert(t.contains(*k));
        if ws.len() == 0 {
            return false;
        }
        let h = ws[0];
        if !header_kind_checkable(h, k) || !header_is_kind(h, k) {
            return false;
        }
        assert(w.skip(1) =~= d);
        proof {
            if w.len() >= 2 {
                assert(d.drop_first() =~= w.skip(2));
            }
        }
        let n = ws.len();
        match k {
            RecordKind::CPUTotal => {
                let timers = self.all_cpus.as_ref().unwrap().num_timers();
                counters_from(ws, 1, timers, Ghost(w))
            },
            RecordKind::CPUThread(id) => {
                proof {
                    lemma_threads_before_grows(t, i as int, t.len() as int);
                }
                let timers = self.each_thread[*id as usize].num_timers();
                counters_from(ws, 1, timers, Ghost(w))
            },
            RecordKind::PagingTotal => {
                assert(n >= 3 ==> d[1] == w[2]);
                counters_from(ws, 1, 2, Ghost(w))
            },
            RecordKind::PagingSwap => {
                assert(n >= 3 ==> d[1] == w[2]);
                counters_from(ws, 1, 2, Ghost(w))
            },
            RecordKind::InterruptsHW => {
                let details = self.interrupts.as_ref().unwrap().details.len();
                n >= 2 && parse_unsigned_str(ws[1], u64::MAX).is_some() && counters_from(
                    ws,
                    2,
                    details,
                    Ghost(w),
                )
            },
            RecordKind::InterruptsSW => {
                let details = self.softirqs.as_ref().unwrap().details.len();
                n >= 2 && parse_unsigned_str(ws[1], u64::MAX).is_some() && counters_from(
                    ws,
                    2,
                    details,
                    Ghost(w),
                )
            },
            RecordKind::ContextSwitches => n >= 2 && parse_unsigned_str(ws[1], u64::MAX).is_some(),
            RecordKind::ProcessForks => n >= 2 && parse_unsigned_str(ws[1], 0xFFFF_FFFF).is_some(),
            RecordKind::ProcessesRunnable => n >= 2 && parse_unsigned_str(ws[1], 0xFFFF).is_some(),
            RecordKind::ProcessesBlocked => n >= 2 && parse_unsigned_str(ws[1], 0xFFFF).is_some(),
            _ => true,
        }
    }

    /// Tell whether a new sample of /proc/stat can be pushed into the store
    pub fn check_sample(&self, file_contents: &str) -> (r: bool)
        requires
            self.wf(),
        ensures
            r == self.sample_ok(lines(bytes_of(file_contents))),
    {
        let n = self.line_target.len();
        match &self.interrupts {
            Some(x) => {
                if x.total.len() >= usize::MAX - n {
                    return false;
                }
            },
            None => {},
        }
        match &self.softirqs {
            Some(x) => {
                if x.total.len() >= usize::MAX - n {
                    return false;
                }
            },
            None => {},
        }
        let mut file_lines = SplitLinesBySpace::new(file_contents);
        let ghost ls = lines(bytes_of(file_contents));
        let ghost t = self.line_target@;
        let mut i: usize = 0;
        while i < n
            invariant
                file_lines.wf(),
                ls == lines(bytes_of(file_contents)),
                self.wf(),
                t == self.line_target@,
                n == t.len(),
                i <= n,
                i <= ls.len(),
                file_lines.remaining_lines() == ls.skip(i as int),
                forall|j: int| 0 <= j < i ==> self.sample_record_ok(#[trigger] t[j], ls[j]),
            decreases n - i,
        {
            match file_lines.next() {
                Some(columns) => {
                    assert(ls.skip(i as int)[0] == ls[i as int]);
                    let ws = collect_words(columns);
                    if !self.sample_words_ok(i, &ws, Ghost(ls[i as int])) {
                        return false;
                    }
                    proof {
                        assert(ls.skip(i + 1) =~= ls.skip(i as int).drop_first());
                    }
                    i = i + 1;
                },
                None => {
                    return false;
                },
            }
        }
        true
    }

    /// Parse the contents of /proc/stat and add a data sample to all
    /// corresponding entries in the internal data store.
    ///
    /// Each member receives the data of the line that maps to it; members
    /// which no line maps to stay as they were.
    pub fn push(&mut self, stream: RecordStream)
        requires
            old(self).wf(),
            stream.wf(),
            old(self).sample_ok(stream.remaining()),
        ensures
            final(self).wf(),
            old(self).same_shape(*final(self)),
            forall|i: int|
                #![trigger old(self).line_target@[i]]
                unique_at(old(self).line_target@, i) ==> old(self).pushed_record(
                    *final(self),
                    old(self).line_target@[i],
                    data_of(stream.remaining()[i]),
                ),
            forall|k: RecordKind|
                !old(self).line_target@.contains(k) ==> #[trigger] old(self).same_member(
                    *final(self),
                    k,
                ),
            old(self).kinds_distinct() ==> forall|n: int|
                #![trigger old(self).all_lens(n)]
                old(self).all_lens(n) ==> final(self).all_lens(n + 1),
            old(self).kinds_distinct() && old(self).has_member() ==> final(self).sample_len()
                == old(self).sample_len() + 1,
            exists|steps: Seq<Self>|
                #[trigger] push_chain(steps, old(self).line_target@, stream.remaining())
                    && steps[0] == *old(self) && steps.last() == *final(self),
    {
        let ghost ls = stream.remaining();
        let ghost t = self.line_target@;
        let ghost start = *self;
        let ghost mut steps: Seq<Self> = seq![*self];
        let mut stream = stream;
        let n = self.line_target.len();
        let mut i: usize = 0;
        while i < n
            invariant
                steps.len() == i + 1,
                steps[0] == start,
                steps[i as int] == *self,
                forall|j: int|
                    0 <= j < i ==> #[trigger] steps[j].record_step(steps[j + 1], t[j], data_of(ls[j])),
                start == *old(self),
                start.wf(),
                start.sample_ok(ls),
                t == start.line_target@,
                n == t.len(),
                0 <= i <= n,
                stream.wf(),
                stream.remaining() == ls.skip(i as int),
                self.wf(),
                start.same_shape(*self),
                self.interrupts matches Some(x) ==> x.total@.len() <= start.interrupts->0.total@.len() + i,
                self.softirqs matches Some(x) ==> x.total@.len() <= start.softirqs->0.total@.len() + i,
                forall|j: int|
                    #![trigger t[j]]
                    0 <= j < i && unique_at(t, j) ==> start.pushed_record(*self, t[j], data_of(ls[j])),
                forall|k: RecordKind|
                    (forall|j: int| 0 <= j < i ==> #[trigger] t[j] != k) ==> #[trigger] start.same_member(
                        *self,
                        k,
                    ),
            decreases n - i,
        {
            proof {
                assert(stream.remaining()[0] == ls[i as int]);
                assert(start.sample_record_ok(t[i as int], ls[i as int]));
            }
            let record = stream.next().unwrap();
            let target = copy_kind(&self.line_target[i]);
            let ghost prev = *self;
            proof {
                assert(t.contains(target)) by {
                    assert(t[i as int] == target);
                }
                if let RecordKind::CPUThread(id) = target {
                    assert(id == threads_before(t, i as int));
                    lemma_threads_before_grows(t, i as int, t.len() as int);
                }
                Self::lemma_sample_record_ok_shape(start, prev, target, ls[i as int]);
            }
            self.push_record(record, &target, Ghost(ls[i as int]));
            proof {
                if target != RecordKind::InterruptsHW {
                    assert(prev.same_member(*self, RecordKind::InterruptsHW));
                }
                if target != RecordKind::InterruptsSW {
                    assert(prev.same_member(*self, RecordKind::InterruptsSW));
                }
                Self::lemma_push_step(start, prev, *self, t, ls, i as int);
                assert(ls.skip(i + 1) =~= ls.skip(i as int).drop_first());
                assert(prev.record_step(*self, t[i as int], data_of(ls[i as int])));
                let ghost old_steps = steps;
                steps = steps.push(*self);
                assert forall|j: int| 0 <= j < i + 1 implies #[trigger] steps[j].record_step(
                    steps[j + 1],
                    t[j],
                    data_of(ls[j]),
                ) by {
                    if j < i {
                        assert(steps[j] == old_steps[j] && steps[j + 1] == old_steps[j + 1]);
                    }
                }
            }
            i = i + 1;
        }
        assert(push_chain(steps, t, ls));
        proof {
            if start.kinds_distinct() {
                assert forall|n: int| #![trigger start.all_lens(n)] start.all_lens(n) implies self.all_lens(n + 1) by {
                    Self::lemma_one_more_sample(start, *self, ls, n);
                }
                Self::lemma_one_more_sample(start, *self, ls, 0);
            }
        }
    }

    /// Whether `o` is `self` after the record of a line of kind `k`, with
    /// data columns `d`, was pushed into the member that it goes to: that
    /// member got one more sample made of `d`, and nothing else changed
    pub open spec fn record_step(self, o: Self, k: RecordKind, d: Seq<Seq<u8>>) -> bool {
        &&& self.same_shape(o)
        &&& self.same_except(o, k)
        &&& self.pushed_record(o, k, d)
    }

    /// Whether no two lines of the file map to the same member (lines whose
    /// data is not recorded, unsupported lines and the boot time, may repeat)
    pub open spec fn kinds_distinct(self) -> bool {
        forall|i: int|
            0 <= i < self.line_target@.len() && !(self.line_target@[i] is Unsupported)
                && !(self.line_target@[i] is BootTime) ==> #[trigger] unique_at(
                self.line_target@,
                i,
            )
    }

    /// Whether the store has a member which counts its samples
    pub open spec fn has_member(self) -> bool {
        ||| self.all_cpus is Some
        ||| self.paging is Some
        ||| self.swapping is Some
        ||| self.interrupts is Some
        ||| self.context_switches is Some
        ||| self.process_forks is Some
        ||| self.runnable_processes is Some
        ||| self.blocked_processes is Some
        ||| self.softirqs is Some
    }

    /// When no two lines map to the same member, pushing a record into the
    /// member of each line adds one sample to every member
    proof fn lemma_one_more_sample(start: Self, end: Self, ls: Seq<Seq<u8>>, n: int)
        requires
            start.wf(),
            end.wf(),
            start.same_shape(end),
            start.kinds_distinct(),
            forall|i: int|
                #![trigger start.line_target@[i]]
                unique_at(start.line_target@, i) ==> start.pushed_record(
                    end,
                    start.line_target@[i],
                    data_of(ls[i]),
                ),
        ensures
            start.all_lens(n) ==> end.all_lens(n + 1),
            start.has_member() ==> end.sample_len() == start.sample_len() + 1,
    {
        let t = start.line_target@;
        assert forall|k: RecordKind|
            t.contains(k) && !(k is Unsupported) && !(k is BootTime) implies start.pushed_record(
            end,
            k,
            data_of(ls[t.index_of(k)]),
        ) by {
            let i = t.index_of(k);
            assert(unique_at(t, i));
        }
        if start.all_lens(n) {
            assert forall|m: int| 0 <= m < end.each_thread@.len() implies (
            #[trigger] end.each_thread@[m]).user_time@.len() == n + 1 by {
                lemma_thread_line_exists(t, t.len() as int, m);
                let i = choose|i: int| 0 <= i < t.len() && (#[trigger] t[i]) is CPUThread && threads_before(t, i) == m;
                assert(unique_at(t, i));
                assert(start.pushed_record(end, t[i], data_of(ls[i])));
                if let RecordKind::CPUThread(id) = t[i] {
                    assert(id as int == m);
                }
                assert(start.each_thread@[m].user_time@.len() == n);
            }
        }
    }

    /// The requirements of a record only depend on the layout of the store
    proof fn lemma_sample_record_ok_shape(a: Self, b: Self, k: RecordKind, line: Seq<u8>)
        requires
            a.wf(),
            a.same_shape(b),
            a.sample_record_ok(k, line),
            a.line_target@.contains(k),
            k matches RecordKind::CPUThread(id) ==> (id as int) < a.each_thread@.len(),
        ensures
            b.sample_record_ok(k, line),
    {
        if let RecordKind::CPUThread(id) = k {
            assert(b.each_thread@[id as int].timer_count() == a.each_thread@[id as int].timer_count());
        }
    }

    /// Pushing the i-th record keeps the loop invariant of push()
    proof fn lemma_push_step(start: Self, prev: Self, next: Self, t: Seq<RecordKind>, ls: Seq<Seq<u8>>, i: int)
        requires
            start.wf(),
            t == start.line_target@,
            0 <= i < t.len(),
            start.same_shape(prev),
            prev.same_shape(next),
            prev.same_except(next, t[i]),
            prev.pushed_record(next, t[i], data_of(ls[i])),
            start.ticks_per_sec == prev.ticks_per_sec,
            forall|j: int|
                #![trigger t[j]]
                0 <= j < i && unique_at(t, j) ==> start.pushed_record(prev, t[j], data_of(ls[j])),
            forall|k: RecordKind|
                (forall|j: int| 0 <= j < i ==> #[trigger] t[j] != k) ==> #[trigger] start.same_member(
                    prev,
                    k,
                ),
        ensures
            start.same_shape(next),
            forall|j: int|
                #![trigger t[j]]
                0 <= j < i + 1 && unique_at(t, j) ==> start.pushed_record(next, t[j], data_of(ls[j])),
            forall|k: RecordKind|
                (forall|j: int| 0 <= j < i + 1 ==> #[trigger] t[j] != k) ==> #[trigger] start.same_member(
                    next,
                    k,
                ),
    {
        assert forall|j: int|
            #![trigger t[j]]
            0 <= j < i + 1 && unique_at(t, j) implies start.pushed_record(next, t[j], data_of(ls[j])) by {
            if let RecordKind::CPUThread(id) = t[j] {
                assert(id == threads_before(t, j));
                lemma_threads_before_grows(t, j, t.len() as int);
            }
            if j < i {
                assert(t[i] != t[j]);
                assert(prev.same_member(next, t[j]));
            } else {
                assert forall|j2: int| 0 <= j2 < i implies #[trigger] t[j2] != t[i] by {}
                assert(start.same_member(prev, t[i]));
            }
        }
        assert forall|k: RecordKind|
            (forall|j: int| 0 <= j < i + 1 ==> #[trigger] t[j] != k) implies #[trigger] start.same_member(
                next,
                k,
            ) by {
            assert(t[i] != k);
            assert(prev.same_member(next, k));
            assert(start.same_member(prev, k));
        }
    }

    /// Tell how many samples are present in the data store
    pub fn len(&self) -> (r: usize)
        ensures
            r == self.sample_len(),
    {
        match &self.all_cpus {
            Some(c) => return c.len(),
            None => {},
        }
        match &self.paging {
            Some(p) => return p.len(),
            None => {},
        }
        match &self.swapping {
            Some(p) => return p.len(),
            None => {},
        }
        match &self.interrupts {
            Some(x) => return x.len(),
            None => {},
        }
        match &self.context_switches {
            Some(v) => return v.len(),
            None => {},
        }
        match &self.process_forks {
            Some(v) => return v.len(),
            None => {},
        }
        match &self.runnable_processes {
            Some(v) => return v.len(),
            None => {},
        }
        match &self.blocked_processes {
            Some(v) => return v.len(),
            None => {},
        }
        match &self.softirqs {
            Some(x) => x.len(),
            None => 0,
        }
    }
}

/// Whether a sequence of stores goes through the lines of a sample one at a
/// time, in order: each store is the previous one after the record of the
/// next line, whose kind the layout `t` gives, was pushed
pub open spec fn push_chain(steps: Seq<Data>, t: Seq<RecordKind>, ls: Seq<Seq<u8>>) -> bool {
    &&& steps.len() == t.len() + 1
    &&& forall|j: int|
        0 <= j < t.len() ==> #[trigger] steps[j].record_step(steps[j + 1], t[j], data_of(ls[j]))
}

} // verus!
