//! This module contains facilities for parsing and storing the data contained
//! in the paging statistics of /proc/stat (page and swap).
use vstd::prelude::*;
use crate::splitter::{SplitColumns, SplitLinesBySpace};
use crate::text::{parses_as_u64, u64_value, parse_unsigned_str};

verus! {

/// Paging statistics record from /proc/stat
#[derive(Debug, PartialEq, Eq)]
pub struct RecordFields {
    /// Number of memory pages that were brought in from disk
    pub incoming: u64,
    /// Number of memory pages that were sent out to disk
    pub outgoing: u64,
}

impl RecordFields {
    /// Decode the paging data: two page counters, incoming then outgoing
    pub fn new<'a, 'b>(data_columns: SplitColumns<'a, 'b>) -> (r: Self)
        requires
            data_columns.is_open(),
            data_columns.remaining_words().len() >= 2,
            parses_as_u64(data_columns.remaining_words()[0]),
            parses_as_u64(data_columns.remaining_words()[1]),
        ensures
            r.incoming == u64_value(data_columns.remaining_words()[0]),
            r.outgoing == u64_value(data_columns.remaining_words()[1]),
            SplitLinesBySpace::same_lines(*old(data_columns.parent), *final(data_columns.parent)),
    {
        let mut data_columns = data_columns;
        let incoming = parse_unsigned_str(data_columns.next().unwrap(), u64::MAX).unwrap();
        let outgoing = parse_unsigned_str(data_columns.next().unwrap(), u64::MAX).unwrap();
        RecordFields { incoming, outgoing }
    }
}

/// Storage paging activity statistics
#[derive(Clone, Debug, PartialEq)]
pub struct SampledData {
    /// Number of RAM pages that were paged in from disk
    pub incoming: Vec<u64>,
    /// Number of RAM pages that were paged out to disk
    pub outgoing: Vec<u64>,
}

/// Paging statistics, as stored by /proc/stat's data store
pub type Data = SampledData;

impl SampledData {
    /// Both counters hold the same number of samples
    pub open spec fn wf(self) -> bool {
        self.incoming@.len() == self.outgoing@.len()
    }

    /// Whether `after` holds one more sample than `self`, made of the given
    /// page counts
    pub open spec fn pushed(self, after: Self, incoming: u64, outgoing: u64) -> bool {
        &&& after.incoming@ == self.incoming@.push(incoming)
        &&& after.outgoing@ == self.outgoing@.push(outgoing)
    }

    /// Create new paging statistics
    pub fn new(_fields: RecordFields) -> (r: Self)
        ensures
            r.wf(),
            r.incoming@.len() == 0,
            r.outgoing@.len() == 0,
    {
        SampledData { incoming: Vec::new(), outgoing: Vec::new() }
    }

    /// Add parsed paging statistics to the internal data store
    pub fn push(&mut self, fields: RecordFields)
        ensures
            old(self).pushed(*final(self), fields.incoming, fields.outgoing),
            old(self).wf() ==> final(self).wf(),
    {
        self.incoming.push(fields.incoming);
        self.outgoing.push(fields.outgoing);
    }

    /// Tell how many samples are present in the data store
    pub fn len(&self) -> (r: usize)
        ensures
            r == self.incoming@.len(),
    {
        self.incoming.len()
    }
}

} // verus!
