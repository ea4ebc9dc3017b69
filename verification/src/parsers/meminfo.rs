//! This module contains a parser for /proc/meminfo, which analyzes the file
//! line by line with a line and word splitter.
use vstd::prelude::*;
use vstd::utf8::encode_utf8;
use crate::parsers::SplitLinesBySpace;
use crate::procfs::meminfo::{PayloadKind, kb_tag};
use crate::procfs::stat::collect_words;
use crate::text::{bytes_of, lines, words, parse_unsigned, parse_unsigned_str, bytes_equal,
    prefix_str};

verus! {

/// What kind of record the data of a line (after its header) make: a number
/// followed by "kB" is a data volume, a number alone a counter, anything else
/// is unsupported
pub open spec fn record_kind(data: Seq<Seq<u8>>) -> PayloadKind {
    if parse_unsigned(data[0], u64::MAX as int) is Some {
        if data.len() > 1 {
            if data[1] == kb_tag() {
                PayloadKind::DataVolume
            } else {
                PayloadKind::Unsupported
            }
        } else {
            PayloadKind::Counter
        }
    } else {
        PayloadKind::Unsupported
    }
}

/// Header of a line of /proc/meminfo: its first word, without the colon
/// which ends it
pub open spec fn header_of(line: Seq<u8>) -> Seq<u8> {
    words(line)[0].drop_last()
}

/// What the lines of a first sample of /proc/meminfo must hold: a header
/// which ends with a colon, followed by data, and no header twice
pub open spec fn setup_ok(ls: Seq<Seq<u8>>) -> bool {
    &&& forall|i: int|
        0 <= i < ls.len() ==> {
            &&& words(#[trigger] ls[i]).len() >= 2
            &&& words(ls[i])[0].len() >= 1
            &&& words(ls[i])[0].last() == 58
        }
    &&& forall|i: int, j: int|
        0 <= i < ls.len() && 0 <= j < ls.len() && i != j ==> #[trigger] header_of(ls[i])
            != #[trigger] header_of(ls[j])
}

/// A first sample of /proc/meminfo is accepted exactly when each of its lines
/// holds at least two words, the first of which ends with a colon, and no two
/// lines start with the same word: headers are compared byte by byte and by
/// nothing else
pub proof fn lemma_setup_ok_distinct_headers(ls: Seq<Seq<u8>>)
    ensures
        setup_ok(ls) <==> {
            &&& forall|i: int|
                0 <= i < ls.len() ==> {
                    &&& words(#[trigger] ls[i]).len() >= 2
                    &&& words(ls[i])[0].len() >= 1
                    &&& words(ls[i])[0].last() == 58
                }
            &&& forall|i: int, j: int|
                0 <= i < ls.len() && 0 <= j < ls.len() && i != j ==> words(#[trigger] ls[i])[0]
                    != words(#[trigger] ls[j])[0]
        },
{
    let shaped = forall|i: int|
        0 <= i < ls.len() ==> {
            &&& words(#[trigger] ls[i]).len() >= 2
            &&& words(ls[i])[0].len() >= 1
            &&& words(ls[i])[0].last() == 58
        };
    if shaped {
        assert forall|i: int, j: int|
            0 <= i < ls.len() && 0 <= j < ls.len() && i != j implies (#[trigger] header_of(ls[i])
                != #[trigger] header_of(ls[j])) == (words(ls[i])[0] != words(ls[j])[0]) by {
            let wi = words(ls[i])[0];
            let wj = words(ls[j])[0];
            assert(wi =~= wi.drop_last().push(58u8));
            assert(wj =~= wj.drop_last().push(58u8));
        }
        if setup_ok(ls) {
            assert forall|i: int, j: int|
                0 <= i < ls.len() && 0 <= j < ls.len() && i != j implies words(#[trigger] ls[i])[0]
                    != words(#[trigger] ls[j])[0] by {
                assert(header_of(ls[i]) != header_of(ls[j]));
            }
        }
    }
}
/// Sampled records from /proc/meminfo, which can measure different things
#[derive(Debug, PartialEq)]
pub enum MemInfoRecord {
    /// A volume of data, in bytes
    DataVolume(Vec<u64>),
    /// A raw counter of something (e.g. free huge pages)
    Counter(Vec<u64>),
    /// Something unsupported by this parser, of which we just count the
    /// amount of samples that we encountered
    Unsupported(usize),
}

impl MemInfoRecord {
    /// Number of samples in the record
    pub open spec fn count(self) -> int {
        match self {
            MemInfoRecord::DataVolume(v) => v@.len() as int,
            MemInfoRecord::Counter(v) => v@.len() as int,
            MemInfoRecord::Unsupported(n) => n as int,
        }
    }

    /// What the record holds
    pub open spec fn kind(self) -> PayloadKind {
        match self {
            MemInfoRecord::DataVolume(_) => PayloadKind::DataVolume,
            MemInfoRecord::Counter(_) => PayloadKind::Counter,
            MemInfoRecord::Unsupported(_) => PayloadKind::Unsupported,
        }
    }

    /// Create a new record, choosing the type based on the data of a line
    pub fn new(raw_data: &mut SplitLinesBySpace) -> (r: Self)
        requires
            old(raw_data).wf(),
            old(raw_data).is_inside_line(),
            old(raw_data).line_words().len() >= 1,
        ensures
            r.kind() == record_kind(old(raw_data).line_words()),
            r.count() == 0,
            final(raw_data).wf(),
            final(raw_data).text() == old(raw_data).text(),
            final(raw_data).remaining_lines() == old(raw_data).remaining_lines(),
    {
        let ghost d = raw_data.line_words();
        // The raw data should start with a numerical field
        let number = parse_unsigned_str(raw_data.next().unwrap(), u64::MAX);
        // The number may or may not come with a suffix which clarifies its
        // semantics: is it just a raw counter, or some volume of data?
        let kb: [u8; 2] = [107, 66];
        assert(kb@ =~= kb_tag());
        let unit = raw_data.next();
        proof {
            if d.len() > 1 {
                assert(d.drop_first()[0] == d[1]);
            }
        }
        match (number, unit) {
            (Some(_), Some(u)) => {
                if bytes_equal(u.as_bytes(), kb.as_slice()) {
                    MemInfoRecord::DataVolume(Vec::new())
                } else {
                    MemInfoRecord::Unsupported(0)
                }
            },
            (Some(_), None) => MemInfoRecord::Counter(Vec::new()),
            _ => MemInfoRecord::Unsupported(0),
        }
    }

    /// Tell how many samples are present in the data store
    pub fn len(&self) -> (r: usize)
        ensures
            r == self.count(),
    {
        match self {
            MemInfoRecord::DataVolume(v) => v.len(),
            MemInfoRecord::Counter(v) => v.len(),
            MemInfoRecord::Unsupported(count) => *count,
        }
    }
}

/// Data samples from /proc/meminfo, in structure-of-array layout
///
/// As /proc/meminfo is basically a (large) set of named data volumes and
/// performance counters, it maps very well to a homogeneous collection (with
/// just an enum inside to disambiguate between volumes and counters). Records
/// are kept in file order for fast sampling, along with their keys.
#[derive(Debug, PartialEq)]
pub struct MemInfoData {
    /// Sampled meminfo records, in the order in which they appear in the file
    pub records: Vec<MemInfoRecord>,
    /// Key of each record, in the same order, no key appearing twice
    pub keys: Vec<String>,
}

impl MemInfoData {
    pub open spec fn wf(self) -> bool {
        &&& self.records@.len() == self.keys@.len()
        &&& forall|i: int, j: int|
            0 <= i < self.keys@.len() && 0 <= j < self.keys@.len() && i != j ==> #[trigger] self.keys@[i]@
                != #[trigger] self.keys@[j]@
    }

    /// Whether the store holds one empty record and its key for each of the
    /// first n lines of a sample
    pub open spec fn set_up_from(self, ls: Seq<Seq<u8>>, n: int) -> bool {
        &&& self.records@.len() == self.keys@.len() == n
        &&& forall|j: int|
            0 <= j < n ==> {
                &&& encode_utf8(#[trigger] self.keys@[j]@) == header_of(ls[j])
                &&& self.records@[j].kind() == record_kind(words(ls[j]).drop_first())
                &&& self.records@[j].count() == 0
            }
    }

    /// Tell whether a data store can be set up from a first sample of
    /// /proc/meminfo
    pub fn check_setup(initial_contents: &str) -> (r: bool)
        ensures
            r == setup_ok(lines(bytes_of(initial_contents))),
    {
        let mut file_lines = crate::splitter::SplitLinesBySpace::new(initial_contents);
        let ghost ls = lines(bytes_of(initial_contents));
        let mut heads: Vec<&str> = Vec::new();
        loop
            invariant
                file_lines.wf(),
                ls == lines(bytes_of(initial_contents)),
                heads@.len() <= ls.len(),
                file_lines.remaining_lines() == ls.skip(heads@.len() as int),
                forall|i: int|
                    0 <= i < heads@.len() ==> {
                        &&& words(#[trigger] ls[i]).len() >= 2
                        &&& words(ls[i])[0].len() >= 1
                        &&& words(ls[i])[0].last() == 58
                        &&& bytes_of(heads@[i]) == words(ls[i])[0]
                    },
            ensures
                heads@.len() == ls.len(),
            decreases ls.len() - heads@.len(),
        {
            match file_lines.next() {
                Some(columns) => {
                    let ghost i = heads@.len() as int;
                    assert(ls.skip(i)[0] == ls[i]);
                    let ws = collect_words(columns);
                    if ws.len() < 2 {
                        return false;
                    }
                    let hb = ws[0].as_bytes();
                    if hb.len() < 1 || hb[hb.len() - 1] != 58u8 {
                        return false;
                    }
                    proof {
                        assert(ls.skip(i + 1) =~= ls.skip(i).drop_first());
                    }
                    heads.push(ws[0]);
                },
                None => {
                    break;
                },
            }
        }
        let n = heads.len();
        let mut a: usize = 0;
        while a < n
            invariant
                n == heads@.len() == ls.len(),
                ls == lines(bytes_of(initial_contents)),
                a <= n,
                forall|i: int|
                    0 <= i < n ==> {
                        &&& words(#[trigger] ls[i]).len() >= 2
                        &&& words(ls[i])[0].len() >= 1
                        &&& words(ls[i])[0].last() == 58
                        &&& bytes_of(heads@[i]) == words(ls[i])[0]
                    },
                forall|i: int, j: int|
                    0 <= i < a && i < j < n ==> #[trigger] header_of(ls[i]) != #[trigger] header_of(
                        ls[j],
                    ),
            decreases n - a,
        {
            let mut b: usize = a + 1;
            while b < n
                invariant
                    n == heads@.len() == ls.len(),
                    ls == lines(bytes_of(initial_contents)),
                    a < n,
                    a + 1 <= b <= n,
                    forall|i: int|
                        0 <= i < n ==> {
                            &&& words(#[trigger] ls[i]).len() >= 2
                            &&& words(ls[i])[0].len() >= 1
                            &&& words(ls[i])[0].last() == 58
                            &&& bytes_of(heads@[i]) == words(ls[i])[0]
                        },
                    forall|i: int, j: int|
                        0 <= i < a && i < j < n ==> #[trigger] header_of(ls[i]) != #[trigger] header_of(
                            ls[j],
                        ),
                    forall|j: int| a < j < b ==> header_of(ls[a as int]) != #[trigger] header_of(ls[j]),
                decreases n - b,
            {
                let ghost wa = words(ls[a as int])[0];
                let ghost wb = words(ls[b as int])[0];
                if bytes_equal(heads[a].as_bytes(), heads[b].as_bytes()) {
                    assert(header_of(ls[a as int]) == header_of(ls[b as int]));
                    return false;
                }
                proof {
                    assert(wa =~= wa.drop_last().push(58u8));
                    assert(wb =~= wb.drop_last().push(58u8));
                }
                b = b + 1;
            }
            a = a + 1;
        }
        true
    }

    /// Create a new memory info data store, using a first sample to know the
    /// structure of /proc/meminfo on this system
    pub fn new(initial_contents: &str) -> (r: Self)
        requires
            setup_ok(lines(bytes_of(initial_contents))),
        ensures
            ({
                let ls = lines(bytes_of(initial_contents));
                &&& r.wf()
                &&& r.keys@.len() == ls.len()
                &&& forall|i: int|
                    0 <= i < ls.len() ==> {
                        &&& encode_utf8(#[trigger] r.keys@[i]@) == header_of(ls[i])
                        &&& r.records@[i].kind() == record_kind(words(ls[i]).drop_first())
                        &&& r.records@[i].count() == 0
                    }
            }),
    {
        let ghost ls = lines(bytes_of(initial_contents));
        let mut data = MemInfoData { records: Vec::new(), keys: Vec::new() };
        let mut file_lines = SplitLinesBySpace::new(initial_contents);
        let ghost mut i: int = 0;
        loop
            invariant
                file_lines.wf(),
                0 <= i <= ls.len(),
                file_lines.remaining_lines() == ls.skip(i),
                setup_ok(ls),
                data.set_up_from(ls, i),
            ensures
                i == ls.len(),
            decreases ls.len() - i,
        {
            if !file_lines.next_line() {
                break;
            }
            proof {
                assert(ls.skip(i)[0] == ls[i]);
                assert(words(ls[i]).len() >= 2);
            }
            let ghost w = words(ls[i]);
            // The header should consist of a non-empty key followed by a
            // colon, which we shall get rid of along the way
            let header_field = file_lines.next().unwrap();
            let header_len = header_field.as_bytes().len();
            let header_str = prefix_str(header_field, header_len - 1);
            let header = header_str.to_owned();
            proof {
                assert(bytes_of(header_str) == encode_utf8(header_str@));
                assert(bytes_of(header_str) =~= header_of(ls[i]));
            }
            assert(file_lines.line_words() == w.drop_first());
            let record = MemInfoRecord::new(&mut file_lines);
            let ghost old_data = data;
            let ghost new_header = header;
            let ghost new_record = record;
            data.records.push(record);
            data.keys.push(header);
            proof {
                assert(data.records@.len() == data.keys@.len() == i + 1);
                assert forall|j: int| 0 <= j < i + 1 implies {
                    &&& encode_utf8(#[trigger] data.keys@[j]@) == header_of(ls[j])
                    &&& data.records@[j].kind() == record_kind(words(ls[j]).drop_first())
                    &&& data.records@[j].count() == 0
                } by {
                    if j < i {
                        assert(data.keys@[j] == old_data.keys@[j]);
                        assert(data.records@[j] == old_data.records@[j]);
                        assert(encode_utf8(old_data.keys@[j]@) == header_of(ls[j]));
                    } else {
                        assert(new_record.kind() == record_kind(w.drop_first()));
                        assert(data.keys@[j] == new_header);
                        assert(data.records@[j] == new_record);
                        assert(encode_utf8(new_header@) == header_of(ls[j]));
                    }
                }
                assert(data.set_up_from(ls, i + 1));
                assert(ls.skip(i + 1) =~= ls.skip(i).drop_first());
                i = i + 1;
            }
        }
        proof {
            assert(data.set_up_from(ls, ls.len() as int));
            assert forall|a: int, b: int|
                0 <= a < data.keys@.len() && 0 <= b < data.keys@.len() && a != b implies #[trigger] data.keys@[a]@
                    != #[trigger] data.keys@[b]@ by {
                assert(header_of(ls[a]) != header_of(ls[b]));
                assert(encode_utf8(data.keys@[a]@) == header_of(ls[a]));
                assert(encode_utf8(data.keys@[b]@) == header_of(ls[b]));
            }
        }
        data
    }

    /// Tell how many samples are present in the data store: the number of
    /// samples of the first record, if any
    pub fn len(&self) -> (r: usize)
        ensures
            r == (if self.records@.len() > 0 {
                self.records@[0].count()
            } else {
                0
            }),
    {
        if self.records.len() > 0 {
            self.records[0].len()
        } else {
            0
        }
    }
}

} // verus!
