//! Durations with nanosecond resolution, as measured by the kernel
use vstd::prelude::*;

verus! {

/// Number of nanoseconds in one second
pub const NANOS_PER_SEC: u32 = 1_000_000_000;

/// A span of time, made of whole seconds and a sub-second nanosecond count
/// which always stays below one second.
#[derive(Clone, Copy, Debug, PartialEq, Eq, Structural)]
pub struct Duration {
    secs: u64,
    nanos: u32,
}

impl View for Duration {
    type V = int;

    /// Total length of the duration, in nanoseconds
    closed spec fn view(&self) -> int {
        self.secs as int * 1_000_000_000 + self.nanos as int
    }
}

impl Duration {
    #[verifier::type_invariant]
    closed spec fn normalized(self) -> bool {
        self.nanos < NANOS_PER_SEC
    }

    /// Whole seconds of the duration
    pub closed spec fn spec_secs(self) -> u64 {
        self.secs
    }

    /// Sub-second part of the duration, in nanoseconds
    pub closed spec fn spec_nanos(self) -> u32 {
        self.nanos
    }

    /// Build a duration from seconds and nanoseconds. Nanoseconds beyond one
    /// second carry over into the seconds.
    pub fn new(secs: u64, nanos: u32) -> (d: Duration)
        requires
            secs + nanos / 1_000_000_000 <= u64::MAX,
        ensures
            d@ == secs as int * 1_000_000_000 + nanos as int,
            d.spec_secs() == secs + nanos / 1_000_000_000,
            d.spec_nanos() == nanos % 1_000_000_000,
    {
        let carry = nanos / NANOS_PER_SEC;
        Duration { secs: secs + carry as u64, nanos: nanos % NANOS_PER_SEC }
    }

    /// The length of a duration is made of its whole seconds and its
    /// sub-second nanoseconds; where the latter stay below one second (as
    /// they do in every duration that executable code holds, see
    /// `subsec_nanos`), they are the remainder of the length in seconds
    pub proof fn lemma_view_parts(d: Duration)
        ensures
            d@ == d.spec_secs() as int * 1_000_000_000 + d.spec_nanos() as int,
            d.spec_nanos() < NANOS_PER_SEC ==> d.spec_secs() == d@ / 1_000_000_000
                && d.spec_nanos() == d@ % 1_000_000_000,
    {
        if d.spec_nanos() < NANOS_PER_SEC {
            assert(d.spec_secs() == d@ / 1_000_000_000 && d.spec_nanos() == d@ % 1_000_000_000) by (nonlinear_arith)
                requires
                    d@ == d.spec_secs() as int * 1_000_000_000 + d.spec_nanos() as int,
                    0 <= d.spec_nanos() < 1_000_000_000,
                    d.spec_secs() >= 0,
            ;
        }
    }

    /// Build a duration from a count of milliseconds
    pub fn from_millis(millis: u64) -> (d: Duration)
        ensures
            d@ == millis as int * 1_000_000,
    {
        let nanos = ((millis % 1000) * 1_000_000) as u32;
        Duration::new(millis / 1000, nanos)
    }

    /// Whole seconds of the duration
    pub fn as_secs(&self) -> (s: u64)
        ensures
            s == self.spec_secs(),
    {
        self.secs
    }

    /// Sub-second part of the duration, in nanoseconds
    pub fn subsec_nanos(&self) -> (n: u32)
        ensures
            n == self.spec_nanos(),
            n < NANOS_PER_SEC,
    {
        proof {
            use_type_invariant(self);
        }
        self.nanos
    }
}

} // verus!
