//! This module contains a sampling parser for /proc/meminfo
use vstd::prelude::*;
use vstd::utf8::encode_utf8;
use bytesize::ByteSize;
use crate::parser::PseudoFileParser;
use crate::splitter::{SplitColumns, SplitLinesBySpace};
use crate::text::{bytes_of, lines, words, char_boundary, parses_as_u64, u64_value,
    parse_unsigned_str, bytes_equal, prefix_str};

verus! {

/// Number of bytes in a data volume of `kib` kibibytes, as computed by the
/// bytesize crate: `ByteSize::kib` multiplies its argument by 1024, and
/// `ByteSize::as_u64` gives the resulting byte count back.
#[verifier::external_body]
fn kib_to_bytes(kib: u64) -> (r: u64)
    requires
        kib * 1024 <= u64::MAX,
    ensures
        r == kib * 1024,
{
    ByteSize::kib(kib).as_u64()
}

/// The "kB" unit which /proc/meminfo uses for data volumes (in kibibytes)
pub open spec fn kb_tag() -> Seq<u8> {
    seq![107u8, 66]
}

/// What kind of payload a record holds, as told by its optional unit
pub open spec fn unit_kind(unit: Option<Seq<u8>>) -> PayloadKind {
    match unit {
        None => PayloadKind::Counter,
        Some(u) => if u == kb_tag() {
            PayloadKind::DataVolume
        } else {
            PayloadKind::Unsupported
        },
    }
}

/// Labels are followed by a colon, which gets cut off: the label field holds
/// a label that is not empty, then its last byte, a character of its own
pub open spec fn label_ok(field: Seq<u8>) -> bool {
    field.len() >= 2 && char_boundary(field, field.len() - 1)
}

/// A line of /proc/meminfo: a label field, then an amount
pub open spec fn record_line_ok(line: Seq<u8>) -> bool {
    &&& words(line).len() >= 2
    &&& label_ok(words(line)[0])
    &&& parses_as_u64(words(line)[1])
}

/// The label of a line of /proc/meminfo: its first word, without its final
/// colon
pub open spec fn label_of(line: Seq<u8>) -> Seq<u8> {
    words(line)[0].drop_last()
}

/// The amount of a line of /proc/meminfo
pub open spec fn amount_of(line: Seq<u8>) -> u64 {
    u64_value(words(line)[1])
}

/// The unit of a line of /proc/meminfo, if any
pub open spec fn unit_of(line: Seq<u8>) -> Option<Seq<u8>> {
    if words(line).len() > 2 {
        Some(words(line)[2])
    } else {
        None
    }
}

/// Incremental parser for /proc/meminfo
#[derive(Debug, PartialEq)]
pub struct Parser {}

impl PseudoFileParser for Parser {
    open spec fn accepts_contents(initial_contents: Seq<u8>) -> bool {
        forall|i: int| 0 <= i < lines(initial_contents).len() ==> record_line_ok(
            #[trigger] lines(initial_contents)[i],
        )
    }

    /// Build a parser, using an initial file sample. Here, this is used to
    /// perform quick schema validation, just to maximize the odds that
    /// failure, if any, will occur at initialization time rather than run
    /// time.
    fn new(initial_contents: &str) -> (r: Self) {
        let mut stream = RecordStream::new(initial_contents);
        let ghost ls = lines(bytes_of(initial_contents));
        let ghost mut done: int = 0;
        loop
            invariant
                stream.wf(),
                0 <= done <= ls.len(),
                stream.remaining() == ls.skip(done),
                forall|i: int| 0 <= i < ls.len() ==> record_line_ok(#[trigger] ls[i]),
            decreases ls.len() - done,
        {
            proof {
                if done < ls.len() {
                    assert(stream.remaining()[0] == ls[done]);
                    assert(record_line_ok(ls[done]));
                }
            }
            match stream.next() {
                Some(record) => {
                    let _label = record.label();
                    let payload = record.extract_payload();
                    let _kind = payload.kind();
                    proof {
                        assert(ls.skip(done + 1) =~= ls.skip(done).drop_first());
                        done = done + 1;
                    }
                },
                None => {
                    break;
                },
            }
        }
        Parser {}
    }
}

/// Read the words of a line, which the given columns iterate over, as a
/// record of /proc/meminfo: if they make one, tell the length of its label
/// and its amount
fn read_record<'a, 'b>(columns: SplitColumns<'a, 'b>) -> (r: Option<(usize, u64)>)
    requires
        columns.is_open(),
    ensures
        ({
            let w = columns.remaining_words();
            &&& r is Some <==> (w.len() >= 2 && label_ok(w[0]) && parses_as_u64(w[1]))
            &&& r matches Some(x) ==> x.0 == w[0].len() - 1 && x.1 == u64_value(w[1])
        }),
        SplitLinesBySpace::same_lines(*old(columns.parent), *final(columns.parent)),
{
    let mut columns = columns;
    let ghost w = columns.remaining_words();
    match columns.next() {
        None => None,
        Some(label) => {
            let lb = label.as_bytes();
            let len = lb.len();
            let labeled = len >= 2 && !(128u8 <= lb[len - 1] && lb[len - 1] < 192u8);
            assert(labeled == label_ok(w[0]));
            match columns.next() {
                None => None,
                Some(amount) => {
                    assert(bytes_of(amount) == w[1]);
                    if !labeled {
                        return None;
                    }
                    match parse_unsigned_str(amount, u64::MAX) {
                        Some(a) => Some((len - 1, a)),
                        None => None,
                    }
                },
            }
        },
    }
}

impl Parser {
    /// Tell whether every line of a sample of /proc/meminfo is a record:
    /// a label ending with a colon, then an amount
    pub fn check_sample(file_contents: &str) -> (r: bool)
        ensures
            r == Self::accepts_contents(bytes_of(file_contents)),
    {
        let mut file_lines = SplitLinesBySpace::new(file_contents);
        let ghost ls = lines(bytes_of(file_contents));
        let ghost mut done: int = 0;
        loop
            invariant
                file_lines.wf(),
                ls == lines(bytes_of(file_contents)),
                0 <= done <= ls.len(),
                file_lines.remaining_lines() == ls.skip(done),
                forall|i: int| 0 <= i < done ==> record_line_ok(#[trigger] ls[i]),
            ensures
                done == ls.len(),
            decreases ls.len() - done,
        {
            match file_lines.next() {
                Some(columns) => {
                    assert(ls.skip(done)[0] == ls[done]);
                    if read_record(columns).is_none() {
                        assert(!record_line_ok(ls[done]));
                        return false;
                    }
                    proof {
                        assert(ls.skip(done + 1) =~= ls.skip(done).drop_first());
                        done = done + 1;
                    }
                },
                None => {
                    break;
                },
            }
        }
        true
    }

    /// Parse a pseudo-file sample into a stream of records
    pub fn parse<'a>(&mut self, file_contents: &'a str) -> (r: RecordStream<'a>)
        ensures
            r.wf(),
            r.remaining() == lines(bytes_of(file_contents)),
    {
        RecordStream::new(file_contents)
    }
}

/// Stream of records from /proc/meminfo
///
/// This streaming iterator yields a stream of memory info records, each
/// representing a line of /proc/meminfo (i.e. a named counter or data volume).
pub struct RecordStream<'a> {
    /// Iterator into the lines and columns of /proc/meminfo
    file_lines: SplitLinesBySpace<'a>,
}

impl<'a> RecordStream<'a> {
    /// Line and column splitter of the stream
    pub closed spec fn splitter(self) -> SplitLinesBySpace<'a> {
        self.file_lines
    }

    pub open spec fn wf(self) -> bool {
        self.splitter().wf()
    }

    /// Lines of the file which have not been turned into records yet
    pub open spec fn remaining(self) -> Seq<Seq<u8>> {
        self.splitter().remaining_lines()
    }

    /// Parse the next record from /proc/meminfo into a stream of fields
    pub fn next<'b>(&'b mut self) -> (r: Option<Record<'a, 'b>>)
        where 'a: 'b
        requires
            old(self).wf(),
            old(self).remaining().len() > 0 ==> words(old(self).remaining()[0]).len() > 0,
        ensures
            match r {
                None => {
                    &&& old(self).remaining().len() == 0
                    &&& final(self).wf()
                    &&& final(self).remaining() == old(self).remaining()
                },
                Some(record) => {
                    &&& old(self).remaining().len() > 0
                    &&& bytes_of(record.label_field) == words(old(self).remaining()[0])[0]
                    &&& record.payload_columns.is_open()
                    &&& record.payload_columns.remaining_words() == words(
                        old(self).remaining()[0],
                    ).drop_first()
                    &&& record.payload_columns.parent.remaining_lines() == old(
                        self,
                    ).remaining().drop_first()
                    &&& final(self).splitter() == *final(record.payload_columns.parent)
                },
            },
    {
        match self.file_lines.next() {
            Some(columns) => Some(Record::new(columns)),
            None => None,
        }
    }

    /// Create a record stream from raw contents
    pub fn new(file_contents: &'a str) -> (r: Self)
        ensures
            r.wf(),
            r.remaining() == lines(bytes_of(file_contents)),
    {
        RecordStream { file_lines: SplitLinesBySpace::new(file_contents) }
    }
}

/// Record from /proc/meminfo (labeled data volume or counter)
pub struct Record<'a, 'b> where 'a: 'b {
    /// Label of the active record, followed by a colon
    pub label_field: &'a str,
    /// Iterator into the payload's columns
    pub payload_columns: SplitColumns<'a, 'b>,
}

impl<'a, 'b> Record<'a, 'b> {
    /// Tell how this record is labeled: the label field, without the colon
    /// which ends it
    pub fn label(&self) -> (r: &'a str)
        requires
            label_ok(bytes_of(self.label_field)),
        ensures
            bytes_of(r) == bytes_of(self.label_field).drop_last(),
    {
        let label_length = self.label_field.as_bytes().len();
        let ghost b = bytes_of(self.label_field);
        let r = prefix_str(self.label_field, label_length - 1);
        assert(bytes_of(r) =~= b.drop_last());
        r
    }

    /// Extract the payload from the active /proc/meminfo record
    pub fn extract_payload(self) -> (r: Payload<'a>)
        requires
            self.payload_columns.is_open(),
            self.payload_columns.remaining_words().len() >= 1,
            parses_as_u64(self.payload_columns.remaining_words()[0]),
        ensures
            r.amount == u64_value(self.payload_columns.remaining_words()[0]),
            r.unit_bytes() == (if self.payload_columns.remaining_words().len() > 1 {
                Some(self.payload_columns.remaining_words()[1])
            } else {
                None
            }),
            SplitLinesBySpace::same_lines(*old(self.payload_columns.parent), *final(self.payload_columns.parent)),
    {
        Payload::new(self.payload_columns)
    }

    /// Construct a record from associated file columns
    pub fn new(record_columns: SplitColumns<'a, 'b>) -> (r: Self)
        requires
            record_columns.is_open(),
            record_columns.remaining_words().len() > 0,
        ensures
            bytes_of(r.label_field) == record_columns.remaining_words()[0],
            r.payload_columns.is_open(),
            r.payload_columns.remaining_words() == record_columns.remaining_words().drop_first(),
            SplitLinesBySpace::same_lines(*old(record_columns.parent), *r.payload_columns.parent),
            *final(old(record_columns.parent)) == *final(r.payload_columns.parent),
    {
        let mut record_columns = record_columns;
        let label_field = record_columns.next().unwrap();
        Record { label_field, payload_columns: record_columns }
    }
}

/// Payload from a /proc/meminfo record (data volume or counter)
#[derive(Debug, PartialEq)]
pub struct Payload<'a> {
    /// Amount of the quantity being measured (data or a count of something)
    pub amount: u64,
    /// Optional unit suffix
    pub unit: Option<&'a str>,
}

impl<'a> Payload<'a> {
    /// The unit suffix, as bytes
    pub open spec fn unit_bytes(self) -> Option<Seq<u8>> {
        match self.unit {
            Some(u) => Some(bytes_of(u)),
            None => None,
        }
    }

    /// Tell whether this is a data volume or a raw counter
    pub fn kind(&self) -> (r: PayloadKind)
        ensures
            r == unit_kind(self.unit_bytes()),
    {
        let kb: [u8; 2] = [107, 66];
        assert(kb@ =~= kb_tag());
        match self.unit {
            Some(unit) => {
                if bytes_equal(unit.as_bytes(), kb.as_slice()) {
                    PayloadKind::DataVolume
                } else {
                    PayloadKind::Unsupported
                }
            },
            None => PayloadKind::Counter,
        }
    }

    /// Parse as a data volume, in bytes (the amount is in kibibytes, no
    /// matter what Linux says)
    pub fn parse_data_volume(self) -> (r: u64)
        requires
            self.amount * 1024 <= u64::MAX,
        ensures
            r == self.amount * 1024,
    {
        kib_to_bytes(self.amount)
    }

    /// Parse as a raw counter
    pub fn parse_counter(self) -> (r: u64)
        ensures
            r == self.amount,
    {
        self.amount
    }

    /// Construct a payload from associated file columns: an amount, then an
    /// optional unit
    pub fn new<'b>(payload_columns: SplitColumns<'a, 'b>) -> (r: Self)
        requires
            payload_columns.is_open(),
            payload_columns.remaining_words().len() >= 1,
            parses_as_u64(payload_columns.remaining_words()[0]),
        ensures
            r.amount == u64_value(payload_columns.remaining_words()[0]),
            r.unit_bytes() == (if payload_columns.remaining_words().len() > 1 {
                Some(payload_columns.remaining_words()[1])
            } else {
                None
            }),
            SplitLinesBySpace::same_lines(*old(payload_columns.parent), *final(payload_columns.parent)),
    {
        let mut payload_columns = payload_columns;
        let amount = parse_unsigned_str(payload_columns.next().unwrap(), u64::MAX).unwrap();
        let unit = payload_columns.next();
        Payload { amount, unit }
    }
}

/// Kinds of payloads found in /proc/meminfo
#[derive(Clone, Copy, Debug, PartialEq, Eq, Structural)]
pub enum PayloadKind {
    /// Volume of data
    DataVolume,
    /// Raw integer counter
    Counter,
    /// Some payload unsupported by this parser
    Unsupported,
}


/// Sampled payloads from /proc/meminfo, which can measure different things
#[derive(Debug, PartialEq)]
pub enum SampledPayloads {
    /// A volume of data, in bytes
    DataVolume(Vec<u64>),
    /// A raw counter of something (e.g. free huge pages)
    Counter(Vec<u64>),
    /// Something unsupported by this parser, of which we just count the
    /// amount of samples that we encountered
    Unsupported(usize),
}

impl SampledPayloads {
    /// Number of samples in the payload table
    pub open spec fn count(self) -> int {
        match self {
            SampledPayloads::DataVolume(v) => v@.len() as int,
            SampledPayloads::Counter(v) => v@.len() as int,
            SampledPayloads::Unsupported(n) => n as int,
        }
    }

    /// What the payload table holds
    pub open spec fn kind(self) -> PayloadKind {
        match self {
            SampledPayloads::DataVolume(_) => PayloadKind::DataVolume,
            SampledPayloads::Counter(_) => PayloadKind::Counter,
            SampledPayloads::Unsupported(_) => PayloadKind::Unsupported,
        }
    }

    /// Whether a payload of a given amount can be recorded: data volumes
    /// are converted to bytes, and samples are counted
    pub open spec fn accepts(self, amount: u64) -> bool {
        match self {
            SampledPayloads::DataVolume(_) => amount * 1024 <= u64::MAX,
            SampledPayloads::Counter(_) => true,
            SampledPayloads::Unsupported(n) => n < usize::MAX,
        }
    }

    /// Whether `after` holds one more sample than `self`, of the given amount
    pub open spec fn pushed(self, after: Self, amount: u64) -> bool {
        match self {
            SampledPayloads::DataVolume(v) => after matches SampledPayloads::DataVolume(v2)
                && v2@ == v@.push((amount * 1024) as u64),
            SampledPayloads::Counter(v) => after matches SampledPayloads::Counter(v2) && v2@
                == v@.push(amount),
            SampledPayloads::Unsupported(n) => after == SampledPayloads::Unsupported(
                (n + 1) as usize,
            ),
        }
    }

    /// Create a new payload table, choosing the type based on some sample
    /// record
    pub fn new(payload: Payload) -> (r: Self)
        ensures
            r.kind() == unit_kind(payload.unit_bytes()),
            r.count() == 0,
    {
        match payload.kind() {
            PayloadKind::DataVolume => SampledPayloads::DataVolume(Vec::new()),
            PayloadKind::Counter => SampledPayloads::Counter(Vec::new()),
            PayloadKind::Unsupported => SampledPayloads::Unsupported(0),
        }
    }

    /// Push new data inside of the payload table
    pub fn push(&mut self, payload: Payload)
        requires
            old(self).accepts(payload.amount),
        ensures
            old(self).pushed(*final(self), payload.amount),
    {
        match self {
            SampledPayloads::DataVolume(v) => {
                v.push(payload.parse_data_volume());
            },
            SampledPayloads::Counter(v) => {
                v.push(payload.parse_counter());
            },
            SampledPayloads::Unsupported(count) => {
                *count = *count + 1;
            },
        }
    }

    /// Tell how many samples are present in the data store
    pub fn len(&self) -> (r: usize)
        ensures
            r == self.count(),
    {
        match self {
            SampledPayloads::DataVolume(v) => v.len(),
            SampledPayloads::Counter(v) => v.len(),
            SampledPayloads::Unsupported(count) => *count,
        }
    }
}

/// Data samples from /proc/meminfo, in structure-of-array layout
///
/// As /proc/meminfo is just a (large) set of named data volumes with a few
/// performance counters sprinkled in the middle, it maps very well to a
/// vector of enums. The layout is optimized for fast sampling with key
/// checking, rather than fast lookup of a specific key.
#[derive(Debug, PartialEq)]
pub struct Data {
    /// Sampled meminfo payloads, in the order in which they appear in the file
    pub data: Vec<SampledPayloads>,
    /// Keys associated with each record, again in file order
    pub keys: Vec<String>,
}

impl Data {
    pub open spec fn wf(self) -> bool {
        self.data@.len() == self.keys@.len()
    }

    /// What a new sample of /proc/meminfo must hold to be added to the store:
    /// at least as many records as the first sample, whose labels are as
    /// long as the keys, and whose amounts can be recorded
    pub open spec fn sample_ok(self, ls: Seq<Seq<u8>>) -> bool {
        &&& ls.len() >= self.data@.len()
        &&& forall|i: int|
            0 <= i < self.data@.len() ==> {
                &&& record_line_ok(#[trigger] ls[i])
                &&& label_of(ls[i]).len() == encode_utf8(self.keys@[i]@).len()
                &&& self.data@[i].accepts(amount_of(ls[i]))
            }
    }

    /// Whether the store was just set up from the lines of a first sample:
    /// one key per line, with its label, and an empty payload table for the
    /// kind of payload that the line holds
    pub open spec fn set_up_from(self, ls: Seq<Seq<u8>>) -> bool {
        &&& self.keys@.len() == ls.len()
        &&& forall|i: int|
            0 <= i < ls.len() ==> #[trigger] record_set_up(self.keys@[i], self.data@[i], ls[i])
    }

    /// Tell whether a new sample of /proc/meminfo can be added to the store
    pub fn check_sample(&self, file_contents: &str) -> (r: bool)
        requires
            self.wf(),
        ensures
            r == self.sample_ok(lines(bytes_of(file_contents))),
    {
        let mut file_lines = SplitLinesBySpace::new(file_contents);
        let ghost ls = lines(bytes_of(file_contents));
        let n = self.data.len();
        let mut i: usize = 0;
        while i < n
            invariant
                file_lines.wf(),
                ls == lines(bytes_of(file_contents)),
                self.wf(),
                n == self.data@.len(),
                i <= n,
                i <= ls.len(),
                file_lines.remaining_lines() == ls.skip(i as int),
                forall|j: int|
                    0 <= j < i ==> {
                        &&& record_line_ok(#[trigger] ls[j])
                        &&& label_of(ls[j]).len() == encode_utf8(self.keys@[j]@).len()
                        &&& self.data@[j].accepts(amount_of(ls[j]))
                    },
            decreases n - i,
        {
            match file_lines.next() {
                Some(columns) => {
                    assert(ls.skip(i as int)[0] == ls[i as int]);
                    match read_record(columns) {
                        None => {
                            assert(!record_line_ok(ls[i as int]));
                            return false;
                        },
                        Some((label_len, amount)) => {
                            let key_len = self.keys[i].as_str().as_bytes().len();
                            if label_len != key_len {
                                return false;
                            }
                            let accepted = match &self.data[i] {
                                SampledPayloads::DataVolume(_) => amount <= 18014398509481983u64,
                                SampledPayloads::Counter(_) => true,
                                SampledPayloads::Unsupported(count) => *count < usize::MAX,
                            };
                            if !accepted {
                                return false;
                            }
                        },
                    }
                    proof {
                        assert(ls.skip(i + 1) =~= ls.skip(i as int).drop_first());
                    }
                    i = i + 1;
                },
                None => {
                    return false;
                },
            }
        }
        true
    }

    /// Create a new memory info data store, using a first sample to know the
    /// structure of /proc/meminfo on this system
    pub fn new(stream: RecordStream) -> (r: Self)
        requires
            stream.wf(),
            forall|i: int| 0 <= i < stream.remaining().len() ==> record_line_ok(#[trigger] stream.remaining()[i]),
        ensures
            r.wf(),
            r.set_up_from(stream.remaining()),
    {
        let ghost ls = stream.remaining();
        let mut stream = stream;
        let mut store = Data { data: Vec::new(), keys: Vec::new() };
        let ghost mut i: int = 0;
        loop
            invariant
                stream.wf(),
                0 <= i <= ls.len(),
                stream.remaining() == ls.skip(i),
                forall|j: int| 0 <= j < ls.len() ==> record_line_ok(#[trigger] ls[j]),
                store.wf(),
                store.keys@.len() == i,
                forall|j: int|
                    0 <= j < i ==> #[trigger] record_set_up(store.keys@[j], store.data@[j], ls[j]),
            ensures
                i == ls.len(),
            decreases ls.len() - i,
        {
            proof {
                if i < ls.len() {
                    assert(stream.remaining()[0] == ls[i]);
                    assert(record_line_ok(ls[i]));
                }
            }
            match stream.next() {
                Some(record) => {
                    let label = record.label();
                    let payload = record.extract_payload();
                    let data = SampledPayloads::new(payload);
                    let key = label.to_owned();
                    proof {
                        assert(bytes_of(label) == encode_utf8(label@));
                        assert(encode_utf8(key@) == label_of(ls[i]));
                        let w = words(ls[i]);
                        if w.len() > 2 {
                            assert(w.drop_first()[1] == w[2]);
                        }
                        assert(data.kind() == unit_kind(unit_of(ls[i])));
                    }
                    let ghost old_store = store;
                    let ghost new_key = key;
                    let ghost new_data = data;
                    store.keys.push(key);
                    store.data.push(data);
                    proof {
                        let ghost next = i + 1;
                        assert(record_set_up(new_key, new_data, ls[i]));
                        assert forall|j: int| 0 <= j < next implies #[trigger] record_set_up(
                            store.keys@[j],
                            store.data@[j],
                            ls[j],
                        ) by {
                            if j < i {
                                assert(store.keys@[j] == old_store.keys@[j]);
                                assert(store.data@[j] == old_store.data@[j]);
                                assert(record_set_up(old_store.keys@[j], old_store.data@[j], ls[j]));
                            } else {
                                assert(store.keys@[j] == new_key);
                                assert(store.data@[j] == new_data);
                            }
                        }
                        assert(ls.skip(next) =~= ls.skip(i).drop_first());
                        i = next;
                    }
                },
                None => {
                    break;
                },
            }
        }
        assert(store.set_up_from(ls));
        store
    }

    /// Parse the contents of /proc/meminfo and add a data sample to all
    /// corresponding entries in the internal data store. Each record must
    /// have a label of the same length as the key that the first sample
    /// gave it, which is how structural changes are detected.
    pub fn push(&mut self, stream: RecordStream)
        requires
            old(self).wf(),
            stream.wf(),
            old(self).sample_ok(stream.remaining()),
        ensures
            final(self).wf(),
            final(self).keys == old(self).keys,
            final(self).data@.len() == old(self).data@.len(),
            forall|i: int|
                0 <= i < old(self).data@.len() ==> old(self).data@[i].pushed(
                    #[trigger] final(self).data@[i],
                    amount_of(stream.remaining()[i]),
                ),
            forall|i: int|
                0 <= i < old(self).data@.len() ==> (#[trigger] final(self).data@[i]).count()
                    == old(self).data@[i].count() + 1,
            old(self).data@.len() > 0 ==> stored_len(*final(self)) == stored_len(*old(self)) + 1,
    {
        let ghost ls = stream.remaining();
        let mut stream = stream;
        let n = self.data.len();
        let mut i: usize = 0;
        while i < n
            invariant
                n == self.data@.len() == old(self).data@.len(),
                self.keys == old(self).keys,
                old(self).wf(),
                old(self).sample_ok(ls),
                0 <= i <= n,
                stream.wf(),
                stream.remaining() == ls.skip(i as int),
                forall|j: int| 0 <= j < i ==> old(self).data@[j].pushed(#[trigger] self.data@[j], amount_of(ls[j])),
                forall|j: int| i <= j < n ==> #[trigger] self.data@[j] == old(self).data@[j],
            decreases n - i,
        {
            proof {
                assert(stream.remaining()[0] == ls[i as int]);
                assert(record_line_ok(ls[i as int]));
            }
            let record = stream.next().unwrap();
            let label = record.label();
            let key_len = self.keys[i].as_str().as_bytes().len();
            // The length of the label serves as a checksum, making sure that
            // the structure of the file did not change during sampling
            let label_len = label.as_bytes().len();
            assert(label_len == key_len);
            let payload = record.extract_payload();
            assert(self.data@[i as int] == old(self).data@[i as int]);
            self.data[i].push(payload);
            proof {
                assert(ls.skip(i + 1) =~= ls.skip(i as int).drop_first());
            }
            i = i + 1;
        }
        assert forall|j: int| 0 <= j < n implies (#[trigger] self.data@[j]).count() == old(
            self,
        ).data@[j].count() + 1 by {
            assert(old(self).data@[j].accepts(amount_of(ls[j])));
            assert(old(self).data@[j].pushed(self.data@[j], amount_of(ls[j])));
        }
    }

    /// Tell how many samples are present in the data store: the number of
    /// samples of the first record, if any
    pub fn len(&self) -> (r: usize)
        ensures
            r == stored_len(*self),
    {
        if self.data.len() > 0 {
            self.data[0].len()
        } else {
            0
        }
    }
}

/// Number of samples in a store: that of its first record, if any
pub open spec fn stored_len(store: Data) -> int {
    if store.data@.len() > 0 {
        store.data@[0].count()
    } else {
        0
    }
}

/// Whether a key and an empty payload table were set up from a line of a
/// first sample: the key is the line's label, and the table holds the kind
/// of payload that the line holds
pub open spec fn record_set_up(key: String, payloads: SampledPayloads, line: Seq<u8>) -> bool {
    &&& encode_utf8(key@) == label_of(line)
    &&& payloads.kind() == unit_kind(unit_of(line))
    &&& payloads.count() == 0
}

} // verus!
