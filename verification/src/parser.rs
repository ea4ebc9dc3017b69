//! What a pseudo-file parser is.
//!
//! The textual data from a pseudo-file is not exploitable right after it has
//! been fetched from the kernel. It must be parsed back into usable numbers
//! first, which is what a parser does. Most parsers do not emit parsed output
//! all at once, but use a streaming design in which file records are processed
//! one by one, on the user's request.
use vstd::prelude::*;
use crate::text::bytes_of;

verus! {

/// All pseudo-file parsers implement this trait, which covers initialization
pub trait PseudoFileParser: Sized {
    /// File contents which this parser can be set up with
    spec fn accepts_contents(initial_contents: Seq<u8>) -> bool;

    /// Setup a parser by analyzing a first sample of the file
    fn new(initial_contents: &str) -> (r: Self)
        requires
            Self::accepts_contents(bytes_of(initial_contents)),
    ;
}

} // verus!
