//! This module contains sampling parsers for the contents of procfs.
//!
//! These parsers are designed to allow sampling the contents of /proc files at
//! a rapid rate, for the purpose of acquiring, analyzing and displaying useful
//! statistics on the time evolution of system performance.
//!
//! The top-level module contains utilities which are usable by multiple
//! modules: a parser for fractional seconds, and a line- and word-splitter
//! which is driven line by line.
pub mod meminfo;
pub mod stat;
pub mod uptime;
pub mod version;

use vstd::prelude::*;
use crate::splitter;
use crate::text::{bytes_of, lines, words, prefix_len, lemma_prefix_len_bounds, parse_unsigned,
    parses_as_u64, u64_value, pow10, lemma_pow10_positive, lemma_digits_value_bound,
    unsigned_digits, parse_unsigned_bytes, all_digits, digits_value};
use crate::time::Duration;

verus! {

/// Integral part of a fractional number of seconds "XXXX[.[YY]]"
pub open spec fn whole_seconds_text(s: Seq<u8>) -> Seq<u8> {
    s.take(prefix_len(s, 46))
}

/// Decimals of a fractional number of seconds "XXXX[.[YY]]": the text after
/// the first decimal point, up to the next decimal point if any.
pub open spec fn decimals_text(s: Seq<u8>) -> Seq<u8> {
    let dot = prefix_len(s, 46);
    if dot < s.len() {
        let rest = s.skip(dot + 1);
        rest.take(prefix_len(rest, 46))
    } else {
        seq![]
    }
}

/// The decimals which are significant at nanosecond precision
pub open spec fn significant_decimals(s: Seq<u8>) -> Seq<u8> {
    let d = decimals_text(s);
    if d.len() > 9 {
        d.take(9)
    } else {
        d
    }
}

/// Whether a text can be read as a fractional number of seconds
pub open spec fn is_duration_text(s: Seq<u8>) -> bool {
    &&& parses_as_u64(whole_seconds_text(s))
    &&& (decimals_text(s).len() == 0 || parse_unsigned(significant_decimals(s), u32::MAX as int) is Some)
}

/// Sub-second part of a fractional number of seconds, in nanoseconds.
/// Decimals beyond nanosecond precision are truncated.
pub open spec fn duration_text_nanos(s: Seq<u8>) -> int {
    let d = significant_decimals(s);
    if decimals_text(s).len() == 0 {
        0
    } else {
        parse_unsigned(d, u32::MAX as int)->0 * pow10((9 - d.len()) as nat)
    }
}

/// The sub-second part of a fractional number of seconds is its decimals
/// read as a fraction: with the n significant decimals worth v as a decimal
/// number, it is v / 10^n seconds, i.e. v * 10^9 / 10^n nanoseconds. In
/// particular a trailing zero decimal changes nothing.
pub proof fn lemma_duration_nanos_fraction(s: Seq<u8>)
    requires
        all_digits(significant_decimals(s)),
    ensures
        duration_text_nanos(s) * pow10(significant_decimals(s).len()) == digits_value(
            significant_decimals(s),
        ) * 1_000_000_000,
{
    let d = significant_decimals(s);
    let n = d.len();
    lemma_pow10_nine();
    if decimals_text(s).len() == 0 {
        assert(d.len() == 0);
        assert(pow10(0) == 1);
    } else {
        assert(n >= 1 && n <= 9);
        assert(unsigned_digits(d) == d);
        crate::text::lemma_digits_value_bound(d);
        lemma_pow10_mono(n, 9);
        let v = digits_value(d);
        assert(parse_unsigned(d, u32::MAX as int) == Some(v));
        lemma_pow10_add((9 - n) as nat, n);
        assert(((9 - n) as nat + n) as nat == 9nat);
        let a = pow10((9 - n) as nat);
        let b = pow10(n);
        assert(v * a * b == v * (a * b)) by (nonlinear_arith);
    }
}

/// Length of a fractional number of seconds, in nanoseconds
pub open spec fn duration_text_value(s: Seq<u8>) -> int {
    u64_value(whole_seconds_text(s)) as int * 1_000_000_000 + duration_text_nanos(s)
}

/// Position of the first occurrence of `d` in `s[from..]`, or the length of
/// `s` if there is none
pub fn find_byte(s: &[u8], from: usize, d: u8) -> (r: usize)
    requires
        from <= s@.len(),
    ensures
        r == from + prefix_len(s@.skip(from as int), d),
        from <= r <= s@.len(),
{
    let ghost t = s@.skip(from as int);
    proof {
        lemma_prefix_len_bounds(t, d);
    }
    let mut i = from;
    while i < s.len() && s[i] != d
        invariant
            from <= i <= s@.len(),
            0 <= prefix_len(t, d) <= t.len(),
            prefix_len(t, d) < t.len() ==> t[prefix_len(t, d)] == d,
            t == s@.skip(from as int),
            prefix_len(t, d) >= i - from,
            forall|j: int| from <= j < i ==> s@[j] != d,
        decreases s@.len() - i,
    {
        proof {
            if prefix_len(t, d) == i - from {
                if i - from < t.len() {
                    assert(t[i - from] == s@[i as int]);
                }
            }
        }
        i = i + 1;
    }
    proof {
        if prefix_len(t, d) > i - from {
            assert(t[i - from] == s@[i as int]);
            assert(t[i - from] != d);
        }
    }
    i
}

/// 10^n for small n
fn pow10_u32(n: u32) -> (r: u32)
    requires
        n <= 9,
    ensures
        r == pow10(n as nat),
{
    let mut r: u32 = 1;
    let mut i: u32 = 0;
    while i < n
        invariant
            i <= n <= 9,
            r == pow10(i as nat),
            r <= 1_000_000_000,
        decreases n - i,
    {
        proof {
            if i < 9 {
                assert(pow10((i + 1) as nat) == 10 * pow10(i as nat));
                lemma_pow10_nine();
                lemma_pow10_mono(i as nat + 1, 9);
            }
        }
        r = r * 10;
        i = i + 1;
    }
    r
}

proof fn lemma_pow10_nine()
    ensures
        pow10(9) == 1_000_000_000,
{
    reveal_with_fuel(pow10, 10);
}

proof fn lemma_pow10_mono(a: nat, b: nat)
    requires
        a <= b,
    ensures
        pow10(a) <= pow10(b),
    decreases b - a,
{
    if a < b {
        lemma_pow10_mono(a, (b - 1) as nat);
        lemma_pow10_positive((b - 1) as nat);
    }
}

/// Specialized parser for Durations expressed in fractional seconds, using the
/// usual text format XXXX[.[YY]]. Sub-nanosecond decimals are truncated.
pub fn parse_duration_secs(input: &str) -> (d: Duration)
    requires
        is_duration_text(bytes_of(input)),
    ensures
        d@ == duration_text_value(bytes_of(input)),
        d.spec_secs() == u64_value(whole_seconds_text(bytes_of(input))),
        d.spec_nanos() == duration_text_nanos(bytes_of(input)),
        d.spec_nanos() < 1_000_000_000,
{
    parse_duration_bytes(input.as_bytes())
}

/// Parser for Durations expressed in fractional seconds, from the bytes of
/// their text
pub(crate) fn parse_duration_bytes(b: &[u8]) -> (d: Duration)
    requires
        is_duration_text(b@),
    ensures
        d@ == duration_text_value(b@),
        d.spec_secs() == u64_value(whole_seconds_text(b@)),
        d.spec_nanos() == duration_text_nanos(b@),
        d.spec_nanos() < 1_000_000_000,
{
    let ghost s = b@;
    let len = b.len();
    let dot = find_byte(b, 0, 46u8);
    assert(s.skip(0) =~= s);
    let whole = &b[0..dot];
    assert(whole@ =~= whole_seconds_text(s));
    let seconds = parse_unsigned_bytes(whole, u64::MAX).unwrap();
    let nanoseconds: u32 = if dot < len {
        let after = dot + 1;
        let end = find_byte(b, after, 46u8);
        proof {
            let rest = s.skip(after as int);
            assert(rest.take(prefix_len(rest, 46)) =~= s.subrange(after as int, end as int));
        }
        if end == after {
            0
        } else {
            let n = if end - after > 9 { 9 } else { end - after };
            let decimals = &b[after..after + n];
            assert(decimals@ =~= significant_decimals(s));
            let value = parse_unsigned_bytes(decimals, u32::MAX as u64).unwrap();
            proof {
                let dv = unsigned_digits(decimals@);
                lemma_digits_value_bound(dv);
                lemma_pow10_mono(dv.len(), n as nat);
                lemma_pow10_positive((9 - n) as nat);
                assert(pow10(n as nat) * pow10((9 - n) as nat) == pow10(9)) by {
                    lemma_pow10_add(n as nat, (9 - n) as nat);
                }
                lemma_pow10_nine();
                assert(value * pow10((9 - n) as nat) < 1_000_000_000) by (nonlinear_arith)
                    requires
                        value < pow10(n as nat),
                        pow10((9 - n) as nat) >= 1,
                        pow10(n as nat) * pow10((9 - n) as nat) == 1_000_000_000,
                ;
            }
            let factor = pow10_u32(9 - n as u32);
            (value as u32) * factor
        }
    } else {
        0
    };
    Duration::new(seconds, nanoseconds)
}

/// Tell whether a text can be read as a fractional number of seconds by
/// parse_duration_secs
pub fn is_duration_str(input: &str) -> (r: bool)
    ensures
        r == is_duration_text(bytes_of(input)),
{
    is_duration_bytes(input.as_bytes())
}

/// Tell whether the bytes of a text can be read as a fractional number of
/// seconds
pub(crate) fn is_duration_bytes(b: &[u8]) -> (r: bool)
    ensures
        r == is_duration_text(b@),
{
    let ghost s = b@;
    let len = b.len();
    let dot = find_byte(b, 0, 46u8);
    assert(s.skip(0) =~= s);
    let whole = &b[0..dot];
    assert(whole@ =~= whole_seconds_text(s));
    if parse_unsigned_bytes(whole, u64::MAX).is_none() {
        return false;
    }
    if dot < len {
        let after = dot + 1;
        let end = find_byte(b, after, 46u8);
        proof {
            let rest = s.skip(after as int);
            assert(rest.take(prefix_len(rest, 46)) =~= s.subrange(after as int, end as int));
        }
        if end == after {
            true
        } else {
            let n = if end - after > 9 { 9 } else { end - after };
            let decimals = &b[after..after + n];
            assert(decimals@ =~= significant_decimals(s));
            parse_unsigned_bytes(decimals, u32::MAX as u64).is_some()
        }
    } else {
        assert(decimals_text(s).len() == 0);
        true
    }
}

proof fn lemma_pow10_add(a: nat, b: nat)
    ensures
        pow10(a) * pow10(b) == pow10(a + b),
    decreases a,
{
    if a > 0 {
        lemma_pow10_add((a - 1) as nat, b);
        assert(pow10(a) * pow10(b) == 10 * (pow10((a - 1) as nat) * pow10(b))) by (nonlinear_arith)
            requires
                pow10(a) == 10 * pow10((a - 1) as nat),
        ;
    }
}

/// An "iterator" operating over **both** lines of text and space-separated
/// words. Expected usage is to call next_line() on every line, continue
/// iterating over lines as long as this function returns true, and for each
/// line call next() to iterate over its space-separated words, until it
/// returns None at the end of the line.
pub struct SplitLinesBySpace<'a> {
    /// Single-pass line and word splitter
    inner: splitter::SplitLinesBySpace<'a>,
}

impl<'a> SplitLinesBySpace<'a> {
    pub closed spec fn wf(self) -> bool {
        self.inner.wf()
    }

    /// The text being split
    pub closed spec fn text(self) -> Seq<u8> {
        self.inner.text()
    }

    /// Whether the splitter is currently positioned on a line
    pub closed spec fn is_inside_line(self) -> bool {
        self.inner.is_inside_line()
    }

    /// Lines which follow the current line
    pub closed spec fn remaining_lines(self) -> Seq<Seq<u8>> {
        self.inner.remaining_lines()
    }

    /// Words of the current line which have not been yielded yet
    pub closed spec fn line_words(self) -> Seq<Seq<u8>> {
        self.inner.line_words()
    }

    /// There are no more words left in a line than there are bytes in the text
    pub proof fn lemma_line_words_len(self)
        requires
            self.wf(),
        ensures
            self.line_words().len() <= usize::MAX,
    {
        self.inner.lemma_line_words_len();
    }

    /// Create a line- and space-splitting iterator
    pub fn new(target: &'a str) -> (r: Self)
        ensures
            r.wf(),
            r.text() == bytes_of(target),
            r.remaining_lines() == lines(bytes_of(target)),
            !r.is_inside_line(),
    {
        SplitLinesBySpace { inner: splitter::SplitLinesBySpace::new(target) }
    }

    /// Try to go to the beginning of the next line. Return true if successful,
    /// false if we reached the end of the file and there is no next line.
    pub fn next_line(&mut self) -> (r: bool)
        requires
            old(self).wf(),
        ensures
            final(self).wf(),
            final(self).text() == old(self).text(),
            r == (old(self).remaining_lines().len() > 0),
            r ==> final(self).is_inside_line() && final(self).line_words() == words(
                old(self).remaining_lines()[0],
            ) && final(self).remaining_lines() == old(self).remaining_lines().drop_first(),
            !r ==> !final(self).is_inside_line() && final(self).remaining_lines().len() == 0,
    {
        self.inner.advance_line()
    }

    /// Iterate through the space-separated words of the current line, until
    /// a None signals the end of the line
    pub fn next(&mut self) -> (r: Option<&'a str>)
        requires
            old(self).wf(),
            old(self).is_inside_line(),
        ensures
            final(self).wf(),
            final(self).text() == old(self).text(),
            final(self).remaining_lines() == old(self).remaining_lines(),
            match r {
                None => old(self).line_words().len() == 0 && !final(self).is_inside_line(),
                Some(w) => {
                    &&& old(self).line_words().len() > 0
                    &&& bytes_of(w) == old(self).line_words()[0]
                    &&& final(self).is_inside_line()
                    &&& final(self).line_words() == old(self).line_words().drop_first()
                },
            },
    {
        self.inner.next_word()
    }

    /// Consume the current line, indicating how many space-separated words were
    /// encountered, but without consuming the entire iterator.
    pub fn word_count(&mut self) -> (r: usize)
        requires
            old(self).wf(),
            old(self).is_inside_line(),
        ensures
            final(self).wf(),
            final(self).text() == old(self).text(),
            final(self).remaining_lines() == old(self).remaining_lines(),
            !final(self).is_inside_line(),
            r == old(self).line_words().len(),
    {
        let mut word_count = 0usize;
        proof {
            old(self).lemma_line_words_len();
        }
        let ghost total = old(self).line_words().len();
        loop
            invariant_except_break
                self.wf(),
                self.is_inside_line(),
                self.text() == old(self).text(),
                self.remaining_lines() == old(self).remaining_lines(),
                word_count + self.line_words().len() == old(self).line_words().len(),
                total == old(self).line_words().len(),
                total <= usize::MAX,
            ensures
                self.wf(),
                !self.is_inside_line(),
                self.text() == old(self).text(),
                self.remaining_lines() == old(self).remaining_lines(),
                word_count == old(self).line_words().len(),
            decreases self.line_words().len(),
        {
            match self.next() {
                Some(_) => {
                    word_count = word_count + 1;
                },
                None => {
                    break;
                },
            }
        }
        word_count
    }
}

/// Split a single line of text: the resulting splitter is positioned on the
/// first line of the input, ready to iterate over its words.
pub fn split_line(input: &str) -> (r: SplitLinesBySpace)
    requires
        lines(bytes_of(input)).len() > 0,
    ensures
        r.wf(),
        r.is_inside_line(),
        r.line_words() == words(lines(bytes_of(input))[0]),
        r.remaining_lines() == lines(bytes_of(input)).drop_first(),
{
    let mut line_splitter = SplitLinesBySpace::new(input);
    line_splitter.next_line();
    line_splitter
}

} // verus!
