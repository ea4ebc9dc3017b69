//! This module contains a parser for /proc/version
//!
//! Since the kernel version is not expected to change during a normal
//! performance measurement, this module is not designed for sampling, unlike
//! others, but only for a one-time readout that subsequently gets re-used.
//!
//! The contents of /proc/version read "Linux version M.m[.b][-flavour] build",
//! where M, m and b are decimal numbers (M without leading zero), the flavour
//! holds no whitespace, and the build information spans the rest of the line.
use vstd::prelude::*;
use crate::text::{digits_value, all_digits, lemma_digits_value_prefix, lemma_digits_value_nonneg};

verus! {

/// ASCII decimal digit
pub open spec fn is_digit_char(c: char) -> bool {
    '0' <= c && c <= '9'
}

/// Unicode whitespace (the White_Space property)
pub open spec fn is_white_char(c: char) -> bool {
    ||| c == ' '
    ||| ('\t' <= c && c <= '\r')
    ||| c == '\u{85}'
    ||| c == '\u{a0}'
    ||| c == '\u{1680}'
    ||| ('\u{2000}' <= c && c <= '\u{200a}')
    ||| c == '\u{2028}'
    ||| c == '\u{2029}'
    ||| c == '\u{202f}'
    ||| c == '\u{205f}'
    ||| c == '\u{3000}'
}

/// Length of the run of ASCII digits which starts at position i
pub open spec fn digit_run(s: Seq<char>, i: int) -> int
    decreases s.len() - i,
{
    if i < 0 || i >= s.len() || !is_digit_char(s[i]) {
        0
    } else {
        1 + digit_run(s, i + 1)
    }
}

/// Length of the run of non-whitespace characters which starts at position i
pub open spec fn nonwhite_run(s: Seq<char>, i: int) -> int
    decreases s.len() - i,
{
    if i < 0 || i >= s.len() || is_white_char(s[i]) {
        0
    } else {
        1 + nonwhite_run(s, i + 1)
    }
}

/// Numerical value of a run of ASCII digits
pub open spec fn number_value(s: Seq<char>) -> int {
    digits_value(s.map_values(|c: char| c as u8))
}

/// "Linux version "
pub open spec fn version_prefix() -> Seq<char> {
    seq!['L', 'i', 'n', 'u', 'x', ' ', 'v', 'e', 'r', 's', 'i', 'o', 'n', ' ']
}

/// End of the major version number
pub open spec fn major_end(s: Seq<char>) -> int {
    14 + digit_run(s, 14)
}

/// End of the minor version number
pub open spec fn minor_end(s: Seq<char>) -> int {
    major_end(s) + 1 + digit_run(s, major_end(s) + 1)
}

/// Whether a bugfix version number follows the minor one
pub open spec fn has_bugfix(s: Seq<char>) -> bool {
    minor_end(s) < s.len() && s[minor_end(s)] == '.'
}

/// End of the bugfix version number, if any
pub open spec fn bugfix_end(s: Seq<char>) -> int {
    if has_bugfix(s) {
        minor_end(s) + 1 + digit_run(s, minor_end(s) + 1)
    } else {
        minor_end(s)
    }
}

/// Whether a distribution flavour follows the version numbers
pub open spec fn has_flavour(s: Seq<char>) -> bool {
    bugfix_end(s) < s.len() && s[bugfix_end(s)] == '-'
}

/// End of the distribution flavour, if any
pub open spec fn flavour_end(s: Seq<char>) -> int {
    if has_flavour(s) {
        bugfix_end(s) + 1 + nonwhite_run(s, bugfix_end(s) + 1)
    } else {
        bugfix_end(s)
    }
}

/// The major version number
pub open spec fn major_of(s: Seq<char>) -> int {
    number_value(s.subrange(14, major_end(s)))
}

/// The minor version number
pub open spec fn minor_of(s: Seq<char>) -> int {
    number_value(s.subrange(major_end(s) + 1, minor_end(s)))
}

/// The bugfix version number, zero if there is none
pub open spec fn bugfix_of(s: Seq<char>) -> int {
    if has_bugfix(s) {
        number_value(s.subrange(minor_end(s) + 1, bugfix_end(s)))
    } else {
        0
    }
}

/// The distribution flavour, if any
pub open spec fn flavour_of(s: Seq<char>) -> Option<Seq<char>> {
    if has_flavour(s) {
        Some(s.subrange(bugfix_end(s) + 1, flavour_end(s)))
    } else {
        None
    }
}

/// The build information
pub open spec fn build_of(s: Seq<char>) -> Seq<char> {
    s.skip(flavour_end(s) + 1)
}

/// Whether a (trimmed) /proc/version text has the expected format, with
/// version numbers which fit in a byte
pub open spec fn is_version_text(s: Seq<char>) -> bool {
    &&& s.len() >= 14
    &&& s.take(14) == version_prefix()
    &&& digit_run(s, 14) >= 1
    &&& s[14] != '0'
    &&& major_end(s) < s.len()
    &&& s[major_end(s)] == '.'
    &&& digit_run(s, major_end(s) + 1) >= 1
    &&& has_bugfix(s) ==> digit_run(s, minor_end(s) + 1) >= 1
    &&& has_flavour(s) ==> nonwhite_run(s, bugfix_end(s) + 1) >= 1
    &&& flavour_end(s) + 1 < s.len()
    &&& s[flavour_end(s)] == ' '
    &&& forall|k: int| flavour_end(s) < k < s.len() ==> #[trigger] s[k] != '\n'
    &&& major_of(s) <= 255
    &&& minor_of(s) <= 255
    &&& bugfix_of(s) <= 255
}

proof fn lemma_digit_run_bounds(s: Seq<char>, i: int)
    requires
        0 <= i <= s.len(),
    ensures
        0 <= digit_run(s, i) <= s.len() - i,
        forall|k: int| i <= k < i + digit_run(s, i) ==> is_digit_char(#[trigger] s[k]),
        i + digit_run(s, i) < s.len() ==> !is_digit_char(s[i + digit_run(s, i)]),
    decreases s.len() - i,
{
    if i < s.len() && is_digit_char(s[i]) {
        lemma_digit_run_bounds(s, i + 1);
    }
}

proof fn lemma_nonwhite_run_bounds(s: Seq<char>, i: int)
    requires
        0 <= i <= s.len(),
    ensures
        0 <= nonwhite_run(s, i) <= s.len() - i,
        i + nonwhite_run(s, i) < s.len() ==> is_white_char(s[i + nonwhite_run(s, i)]),
    decreases s.len() - i,
{
    if i < s.len() && !is_white_char(s[i]) {
        lemma_nonwhite_run_bounds(s, i + 1);
    }
}

/// Scan a run of ASCII digits which starts at position `start`, given that
/// its value fits in a byte
fn scan_number(s: &str, start: usize, n: usize) -> (r: (u8, usize))
    requires
        n == s@.len(),
        start <= n,
        number_value(s@.subrange(start as int, start + digit_run(s@, start as int))) <= 255,
    ensures
        r.1 == start + digit_run(s@, start as int),
        r.0 == number_value(s@.subrange(start as int, r.1 as int)),
{
    let ghost t = s@;
    proof {
        lemma_digit_run_bounds(t, start as int);
    }
    let ghost end = start + digit_run(t, start as int);
    let ghost full = t.subrange(start as int, end).map_values(|c: char| c as u8);
    assert(all_digits(full));
    let mut i = start;
    let mut v: u64 = 0;
    while i < n && is_ascii_digit(s.get_char(i))
        invariant
            start <= i <= end <= n == t.len(),
            t == s@,
            full == t.subrange(start as int, end).map_values(|c: char| c as u8),
            all_digits(full),
            digits_value(full) <= 255,
            forall|k: int| start <= k < end ==> is_digit_char(#[trigger] t[k]),
            end < n ==> !is_digit_char(t[end]),
            v as int == digits_value(full.take(i - start)),
        decreases n - i,
    {
        let c = s.get_char(i);
        proof {
            if i >= end {
                assert(i == end);
            }
            lemma_digits_value_prefix(full, i - start + 1);
            assert(full.take(i - start + 1).drop_last() =~= full.take(i - start));
            assert(full[i - start] == c as u8);
        }
        v = v * 10 + ((c as u32) - 48) as u64;
        i = i + 1;
    }
    proof {
        if i < end {
            assert(is_digit_char(t[i as int]));
        }
        assert(i == end);
        assert(full.take(i - start) =~= full);
    }
    (v as u8, i)
}

/// Find the end of the run of ASCII digits which starts at position
/// `start`, if the value of that run fits in a byte
fn scan_small_number(s: &str, start: usize, n: usize) -> (r: Option<usize>)
    requires
        n == s@.len(),
        start <= n,
    ensures
        match r {
            Some(e) => {
                &&& e == start + digit_run(s@, start as int)
                &&& number_value(s@.subrange(start as int, e as int)) <= 255
            },
            None => number_value(
                s@.subrange(start as int, start + digit_run(s@, start as int)),
            ) > 255,
        },
{
    let ghost t = s@;
    proof {
        lemma_digit_run_bounds(t, start as int);
    }
    let ghost end = start + digit_run(t, start as int);
    let ghost full = t.subrange(start as int, end).map_values(|c: char| c as u8);
    assert(all_digits(full));
    let mut i = start;
    let mut v: u64 = 0;
    while i < n && is_ascii_digit(s.get_char(i))
        invariant
            start <= i <= end <= n == t.len(),
            t == s@,
            full == t.subrange(start as int, end).map_values(|c: char| c as u8),
            all_digits(full),
            forall|k: int| start <= k < end ==> is_digit_char(#[trigger] t[k]),
            end < n ==> !is_digit_char(t[end]),
            v as int == digits_value(full.take(i - start)),
            v <= 255,
            end == start + digit_run(t, start as int),
        decreases n - i,
    {
        let c = s.get_char(i);
        proof {
            if i >= end {
                assert(i == end);
            }
            assert(full.take(i - start + 1).drop_last() =~= full.take(i - start));
            assert(full[i - start] == c as u8);
        }
        v = v * 10 + ((c as u32) - 48) as u64;
        i = i + 1;
        assert(v as int == digits_value(full.take(i - start)));
        if v > 255 {
            proof {
                lemma_digits_value_prefix(full, i - start);
                assert(digits_value(full) > 255);
                assert(number_value(t.subrange(start as int, end)) == digits_value(full));
                assert(number_value(s@.subrange(start as int, start + digit_run(s@, start as int))) > 255);
            }
            return None;
        }
    }
    proof {
        if i < end {
            assert(is_digit_char(t[i as int]));
        }
        assert(i == end);
        assert(full.take(i - start) =~= full);
    }
    Some(i)
}

/// Tell whether a (trimmed) /proc/version text can be parsed
#[verifier::loop_isolation(false)]
pub fn is_version_str(trimmed_version: &str) -> (r: bool)
    ensures
        r == is_version_text(trimmed_version@),
{
    let s = trimmed_version;
    let ghost t = s@;
    let n = s.unicode_len();
    if n < 15 {
        return false;
    }
    let prefix: [char; 14] = ['L', 'i', 'n', 'u', 'x', ' ', 'v', 'e', 'r', 's', 'i', 'o', 'n', ' '];
    assert(prefix@ =~= version_prefix());
    let mut p: usize = 0;
    while p < 14
        invariant
            p <= 14 <= n == t.len(),
            t == s@,
            prefix@ == version_prefix(),
            forall|k: int| 0 <= k < p ==> #[trigger] t[k] == version_prefix()[k],
        decreases 14 - p,
    {
        if s.get_char(p) != prefix[p] {
            assert(t.take(14)[p as int] != version_prefix()[p as int]);
            assert(t.take(14) != version_prefix());
            return false;
        }
        p = p + 1;
    }
    assert(t.take(14) =~= version_prefix());
    if !is_ascii_digit(s.get_char(14)) || s.get_char(14) == '0' {
        return false;
    }
    proof {
        lemma_digit_run_bounds(t, 14);
    }
    let i = match scan_small_number(s, 14, n) {
        Some(e) => e,
        None => {
            return false;
        },
    };
    assert(i == major_end(t));
    if i >= n || s.get_char(i) != '.' {
        return false;
    }
    if i + 1 >= n || !is_ascii_digit(s.get_char(i + 1)) {
        return false;
    }
    proof {
        lemma_digit_run_bounds(t, i + 2);
    }
    let j = match scan_small_number(s, i + 1, n) {
        Some(e) => e,
        None => {
            return false;
        },
    };
    assert(j == minor_end(t));
    let mut k = j;
    if j < n && s.get_char(j) == '.' {
        if j + 1 >= n || !is_ascii_digit(s.get_char(j + 1)) {
            return false;
        }
        proof {
            lemma_digit_run_bounds(t, j + 2);
        }
        k = match scan_small_number(s, j + 1, n) {
            Some(e) => e,
            None => {
                return false;
            },
        };
    }
    assert(k == bugfix_end(t));
    let mut f = k;
    if k < n && s.get_char(k) == '-' {
        if k + 1 >= n || is_white(s.get_char(k + 1)) {
            return false;
        }
        proof {
            lemma_nonwhite_run_bounds(t, k + 1);
        }
        let mut e = k + 1;
        while e < n && !is_white(s.get_char(e))
            invariant
                k + 1 <= e <= k + 1 + nonwhite_run(t, k + 1),
                k + 1 + nonwhite_run(t, k + 1) <= n,
                n == t.len(),
                t == s@,
                k + 1 + nonwhite_run(t, k + 1) < n ==> is_white_char(t[k + 1 + nonwhite_run(t, k + 1)]),
                nonwhite_run(t, e as int) == nonwhite_run(t, k + 1) - (e - (k + 1)),
            decreases n - e,
        {
            e = e + 1;
        }
        proof {
            if e < k + 1 + nonwhite_run(t, k + 1) {
                assert(nonwhite_run(t, e as int) > 0);
            }
        }
        f = e;
    }
    assert(f == flavour_end(t));
    if f >= n || f + 1 >= n || s.get_char(f) != ' ' {
        return false;
    }
    let mut q = f + 1;
    while q < n
        invariant
            f + 1 <= q <= n == t.len(),
            t == s@,
            forall|m: int| f < m < q ==> #[trigger] t[m] != '\n',
        decreases n - q,
    {
        if s.get_char(q) == '\n' {
            assert(t[q as int] == '\n');
            assert(flavour_end(t) < q < t.len());
            assert(!is_version_text(t));
            return false;
        }
        q = q + 1;
    }
    true
}

/// Whether a character is an ASCII digit
fn is_ascii_digit(c: char) -> (r: bool)
    ensures
        r == is_digit_char(c),
{
    '0' <= c && c <= '9'
}

/// Whether a character is whitespace
fn is_white(c: char) -> (r: bool)
    ensures
        r == is_white_char(c),
{
    c == ' ' || ('\t' <= c && c <= '\r') || c == '\u{85}' || c == '\u{a0}' || c == '\u{1680}' || (
    '\u{2000}' <= c && c <= '\u{200a}') || c == '\u{2028}' || c == '\u{2029}' || c == '\u{202f}'
        || c == '\u{205f}' || c == '\u{3000}'
}

/// Mechanism to collect kernel versioning information
#[derive(Debug, PartialEq, Eq)]
pub struct LinuxVersion {
    /// Upstream kernel version, following Linux 3.x style. In the pre-3.0
    /// era, the third "bugfix" number was actually used for feature
    /// releases, which is not fully supported.
    pub major: u8,
    pub minor: u8,
    pub bugfix: u8,
    /// Distribution-specific versioning information and kernel flavours
    pub distro_flavour: Option<String>,
    /// Build information (host, compiler, date...)
    pub build_info: String,
}

impl LinuxVersion {
    /// Whether this version is at least major.minor.bugfix
    pub open spec fn at_least(self, major: u8, minor: u8, bugfix: u8) -> bool {
        ||| self.major > major
        ||| (self.major == major && self.minor > minor)
        ||| (self.major == major && self.minor == minor && self.bugfix >= bugfix)
    }

    /// Versions are ordered by major, then minor, then bugfix number: a
    /// kernel is at least a version exactly when that version is not
    /// strictly newer than its own
    pub proof fn lemma_at_least_lexicographic(self, major: u8, minor: u8, bugfix: u8)
        ensures
            self.at_least(major, minor, bugfix) <==> !(self.major < major || (self.major == major
                && self.minor < minor) || (self.major == major && self.minor == minor && self.bugfix
                < bugfix)),
    {
    }

    /// A kernel is at least its own version (the bound is included)
    pub proof fn lemma_at_least_itself(self)
        ensures
            self.at_least(self.major, self.minor, self.bugfix),
    {
    }

    /// A kernel which is at least some version is at least every older
    /// version, versions being ordered by major, then minor, then bugfix
    /// number
    pub proof fn lemma_at_least_older(
        self,
        major: u8,
        minor: u8,
        bugfix: u8,
        older_major: u8,
        older_minor: u8,
        older_bugfix: u8,
    )
        requires
            self.at_least(major, minor, bugfix),
            older_major < major || (older_major == major && older_minor < minor) || (older_major
                == major && older_minor == minor && older_bugfix <= bugfix),
        ensures
            self.at_least(older_major, older_minor, older_bugfix),
    {
    }

    /// Check if we are using at least a certain kernel version (included)
    pub fn greater_eq(&self, major: u8, minor: u8, bugfix: u8) -> (r: bool)
        ensures
            r == self.at_least(major, minor, bugfix),
    {
        // Test major version
        if self.major < major {
            return false;
        }
        if self.major > major {
            return true;
        }
        // Major version is equal, test minor version
        if self.minor < minor {
            return false;
        }
        if self.minor > minor {
            return true;
        }
        // Minor version is equal, test bugfix version
        self.bugfix >= bugfix
    }

    /// Check if we are below a certain kernel version (excluded)
    pub fn smaller(&self, major: u8, minor: u8, bugfix: u8) -> (r: bool)
        ensures
            r == !self.at_least(major, minor, bugfix),
    {
        !self.greater_eq(major, minor, bugfix)
    }

    /// Parse the (trimmed) contents of /proc/version
    pub fn parse(trimmed_version: &str) -> (r: Self)
        requires
            is_version_text(trimmed_version@),
        ensures
            r.major == major_of(trimmed_version@),
            r.minor == minor_of(trimmed_version@),
            r.bugfix == bugfix_of(trimmed_version@),
            match flavour_of(trimmed_version@) {
                Some(f) => r.distro_flavour matches Some(d) && d@ == f,
                None => r.distro_flavour is None,
            },
            r.build_info@ == build_of(trimmed_version@),
    {
        let s = trimmed_version;
        let ghost t = s@;
        let n = s.unicode_len();
        proof {
            lemma_digit_run_bounds(t, 14);
        }
        let (major, i) = scan_number(s, 14, n);
        proof {
            lemma_digit_run_bounds(t, i + 1);
        }
        let (minor, j) = scan_number(s, i + 1, n);
        let mut k = j;
        let mut bugfix: u8 = 0;
        if j < n && s.get_char(j) == '.' {
            proof {
                lemma_digit_run_bounds(t, j + 1);
            }
            let (b, e) = scan_number(s, j + 1, n);
            bugfix = b;
            k = e;
        }
        assert(k == bugfix_end(t));
        let mut f = k;
        let mut distro_flavour: Option<String> = None;
        if k < n && s.get_char(k) == '-' {
            proof {
                lemma_nonwhite_run_bounds(t, k + 1);
            }
            let mut e = k + 1;
            while e < n && !is_white(s.get_char(e))
                invariant
                    k + 1 <= e <= k + 1 + nonwhite_run(t, k + 1),
                    k + 1 + nonwhite_run(t, k + 1) <= n,
                    n == t.len(),
                    t == s@,
                    k + 1 + nonwhite_run(t, k + 1) < n ==> is_white_char(t[k + 1 + nonwhite_run(t, k + 1)]),
                    nonwhite_run(t, e as int) == nonwhite_run(t, k + 1) - (e - (k + 1)),
                decreases n - e,
            {
                e = e + 1;
            }
            proof {
                if e < k + 1 + nonwhite_run(t, k + 1) {
                    assert(nonwhite_run(t, e as int) > 0);
                }
            }
            distro_flavour = Some(s.substring_char(k + 1, e).to_owned());
            f = e;
        }
        assert(f == flavour_end(t));
        let build_info = s.substring_char(f + 1, n).to_owned();
        assert(build_info@ =~= build_of(t));
        LinuxVersion { major, minor, bugfix, distro_flavour, build_info }
    }
}

} // verus!
