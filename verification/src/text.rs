//! Byte-level model of the ASCII text produced by procfs, and the basic
//! operations that every parser builds upon: cutting substrings out of a
//! string at ASCII delimiters, and decoding decimal integers.
use vstd::prelude::*;
use vstd::string::*;
use vstd::utf8::*;

verus! {

/// The UTF-8 bytes of a string slice
pub open spec fn bytes_of(s: &str) -> Seq<u8> {
    s.spec_bytes()
}

/// ASCII space, the column separator of most procfs files
pub open spec fn is_space(b: u8) -> bool {
    b == 32
}

/// ASCII line feed, the record separator of most procfs files
pub open spec fn is_newline(b: u8) -> bool {
    b == 10
}

/// ASCII decimal digit
pub open spec fn is_digit(b: u8) -> bool {
    48 <= b <= 57
}

pub open spec fn all_digits(s: Seq<u8>) -> bool {
    forall|i: int| 0 <= i < s.len() ==> is_digit(#[trigger] s[i])
}

/// Numerical value of a sequence of decimal digits (most significant first)
pub open spec fn digits_value(s: Seq<u8>) -> int
    decreases s.len(),
{
    if s.len() == 0 {
        0
    } else {
        digits_value(s.drop_last()) * 10 + (s.last() as int - 48)
    }
}

/// The digits of an unsigned integer, after an optional leading '+'
pub open spec fn unsigned_digits(s: Seq<u8>) -> Seq<u8> {
    if s.len() > 0 && s[0] == 43 {
        s.drop_first()
    } else {
        s
    }
}

/// Decimal decoding of an unsigned integer no larger than `max`, following
/// the textual format accepted by `str::parse` for Rust's unsigned integers:
/// an optional '+' sign followed by at least one ASCII digit.
pub open spec fn parse_unsigned(s: Seq<u8>, max: int) -> Option<int> {
    let d = unsigned_digits(s);
    if d.len() > 0 && all_digits(d) && digits_value(d) <= max {
        Some(digits_value(d))
    } else {
        None
    }
}

/// Decimal decoding of a signed 64-bit integer, following the textual format
/// accepted by `str::parse::<i64>`: an optional sign followed by at least one
/// ASCII digit.
pub open spec fn parse_i64_spec(s: Seq<u8>) -> Option<int> {
    if s.len() > 0 && s[0] == 45 {
        let d = s.drop_first();
        if d.len() > 0 && all_digits(d) && digits_value(d) <= 0x8000_0000_0000_0000 {
            Some(-digits_value(d))
        } else {
            None
        }
    } else {
        parse_unsigned(s, i64::MAX as int)
    }
}

/// Length of the first line of `s` (position of its first line feed)
pub open spec fn line_len(s: Seq<u8>) -> int
    decreases s.len(),
{
    if s.len() == 0 || is_newline(s[0]) {
        0
    } else {
        1 + line_len(s.drop_first())
    }
}

/// Decomposition of a text into lines. Line feeds separate lines, an empty
/// text has no line at all, and a final line feed does not open a new line.
pub open spec fn lines(s: Seq<u8>) -> Seq<Seq<u8>>
    decreases s.len(),
{
    if s.len() == 0 {
        seq![]
    } else {
        let n = line_len(s);
        if n < s.len() {
            proof {
                lemma_line_len_bounds(s);
            }
            seq![s.take(n)] + lines(s.skip(n + 1))
        } else {
            seq![s.take(n)]
        }
    }
}

/// Length of the first word of `s` (position of its first space)
pub open spec fn word_len(s: Seq<u8>) -> int
    decreases s.len(),
{
    if s.len() == 0 || is_space(s[0]) {
        0
    } else {
        1 + word_len(s.drop_first())
    }
}

/// Decomposition of a line into its space-separated words. Runs of several
/// spaces are equivalent to a single space, and leading or trailing spaces
/// produce no empty word.
pub open spec fn words(s: Seq<u8>) -> Seq<Seq<u8>>
    decreases s.len(),
{
    if s.len() == 0 {
        seq![]
    } else if is_space(s[0]) {
        words(s.drop_first())
    } else {
        let n = word_len(s);
        proof {
            lemma_word_len_bounds(s);
        }
        seq![s.take(n)] + words(s.skip(n))
    }
}

/// Length in bytes of the whitespace character (in the sense of the Unicode
/// White_Space property) whose UTF-8 encoding starts `s`, or 0 if `s` does
/// not start with one: ASCII space, tab, line feed, vertical tab, form feed
/// and carriage return; U+0085 and U+00A0; U+1680; U+2000 to U+200A, U+2028,
/// U+2029 and U+202F; U+205F; U+3000.
pub open spec fn blank_len(s: Seq<u8>) -> int {
    if s.len() >= 1 && (s[0] == 32 || (9 <= s[0] && s[0] <= 13)) {
        1
    } else if s.len() >= 2 && s[0] == 0xC2 && (s[1] == 0x85 || s[1] == 0xA0) {
        2
    } else if s.len() >= 3 && s[0] == 0xE1 && s[1] == 0x9A && s[2] == 0x80 {
        3
    } else if s.len() >= 3 && s[0] == 0xE2 && s[1] == 0x80 && ((0x80 <= s[2] && s[2] <= 0x8A)
        || s[2] == 0xA8 || s[2] == 0xA9 || s[2] == 0xAF) {
        3
    } else if s.len() >= 3 && s[0] == 0xE2 && s[1] == 0x81 && s[2] == 0x9F {
        3
    } else if s.len() >= 3 && s[0] == 0xE3 && s[1] == 0x80 && s[2] == 0x80 {
        3
    } else {
        0
    }
}

/// Length of the first whitespace-free field of `s`
pub open spec fn field_len(s: Seq<u8>) -> int
    decreases s.len(),
{
    if s.len() == 0 || blank_len(s) > 0 {
        0
    } else {
        1 + field_len(s.drop_first())
    }
}

/// Decomposition of a text into its whitespace-separated fields
pub open spec fn fields(s: Seq<u8>) -> Seq<Seq<u8>>
    decreases s.len(),
{
    if s.len() == 0 {
        seq![]
    } else if blank_len(s) > 0 {
        fields(s.skip(blank_len(s)))
    } else {
        let n = field_len(s);
        proof {
            lemma_field_len_bounds(s);
        }
        seq![s.take(n)] + fields(s.skip(n))
    }
}

/// A field ends where the text does or where a whitespace character starts
pub proof fn lemma_field_len_bounds(s: Seq<u8>)
    ensures
        0 <= field_len(s) <= s.len(),
        field_len(s) < s.len() ==> blank_len(s.skip(field_len(s))) > 0,
        s.len() > 0 && blank_len(s) == 0 ==> field_len(s) > 0,
        forall|i: int| 0 <= i < field_len(s) ==> blank_len(#[trigger] s.skip(i)) == 0,
    decreases s.len(),
{
    if s.len() > 0 && blank_len(s) == 0 {
        let t = s.drop_first();
        lemma_field_len_bounds(t);
        assert(s.skip(0) =~= s);
        assert forall|i: int| 0 <= i < field_len(s) implies blank_len(#[trigger] s.skip(i)) == 0 by {
            if i > 0 {
                assert(s.skip(i) =~= t.skip(i - 1));
            }
        }
        if field_len(s) < s.len() {
            assert(s.skip(field_len(s)) =~= t.skip(field_len(t)));
        }
    } else {
        assert(s.skip(0) =~= s);
    }
}

/// The length of the whitespace character which starts a text, as read from
/// a byte slice at a given position
pub fn blank_len_at(b: &[u8], i: usize) -> (r: usize)
    requires
        i <= b@.len(),
    ensures
        r == blank_len(b@.skip(i as int)),
        r <= 3,
{
    let ghost s = b@.skip(i as int);
    let n = b.len() - i;
    if n >= 1 && (b[i] == 32 || (9 <= b[i] && b[i] <= 13)) {
        assert(s[0] == b@[i as int]);
        1
    } else if n >= 2 && b[i] == 0xC2 && (b[i + 1] == 0x85 || b[i + 1] == 0xA0) {
        assert(s[0] == b@[i as int] && s[1] == b@[i + 1]);
        2
    } else if n >= 3 && b[i] == 0xE1 && b[i + 1] == 0x9A && b[i + 2] == 0x80 {
        assert(s[0] == b@[i as int] && s[1] == b@[i + 1] && s[2] == b@[i + 2]);
        3
    } else if n >= 3 && b[i] == 0xE2 && b[i + 1] == 0x80 && ((0x80 <= b[i + 2] && b[i + 2] <= 0x8A)
        || b[i + 2] == 0xA8 || b[i + 2] == 0xA9 || b[i + 2] == 0xAF) {
        assert(s[0] == b@[i as int] && s[1] == b@[i + 1] && s[2] == b@[i + 2]);
        3
    } else if n >= 3 && b[i] == 0xE2 && b[i + 1] == 0x81 && b[i + 2] == 0x9F {
        assert(s[0] == b@[i as int] && s[1] == b@[i + 1] && s[2] == b@[i + 2]);
        3
    } else if n >= 3 && b[i] == 0xE3 && b[i + 1] == 0x80 && b[i + 2] == 0x80 {
        assert(s[0] == b@[i as int] && s[1] == b@[i + 1] && s[2] == b@[i + 2]);
        3
    } else {
        proof {
            if n >= 1 {
                assert(s[0] == b@[i as int]);
            }
            if n >= 2 {
                assert(s[1] == b@[i + 1]);
            }
            if n >= 3 {
                assert(s[2] == b@[i + 2]);
            }
        }
        0
    }
}

pub proof fn lemma_line_len_bounds(s: Seq<u8>)
    ensures
        0 <= line_len(s) <= s.len(),
        line_len(s) < s.len() ==> is_newline(s[line_len(s)]),
        forall|i: int| 0 <= i < line_len(s) ==> !is_newline(#[trigger] s[i]),
    decreases s.len(),
{
    if s.len() > 0 && !is_newline(s[0]) {
        lemma_line_len_bounds(s.drop_first());
        assert forall|i: int| 0 <= i < line_len(s) implies !is_newline(#[trigger] s[i]) by {
            if i > 0 {
                assert(s[i] == s.drop_first()[i - 1]);
            }
        }
    }
}

pub proof fn lemma_word_len_bounds(s: Seq<u8>)
    ensures
        0 <= word_len(s) <= s.len(),
        word_len(s) < s.len() ==> is_space(s[word_len(s)]),
        s.len() > 0 && !is_space(s[0]) ==> word_len(s) > 0,
        forall|i: int| 0 <= i < word_len(s) ==> !is_space(#[trigger] s[i]),
    decreases s.len(),
{
    if s.len() > 0 && !is_space(s[0]) {
        lemma_word_len_bounds(s.drop_first());
        assert forall|i: int| 0 <= i < word_len(s) implies !is_space(#[trigger] s[i]) by {
            if i > 0 {
                assert(s[i] == s.drop_first()[i - 1]);
            }
        }
    }
}

/// Length of the prefix of `s` which precedes the first occurrence of `d`
pub open spec fn prefix_len(s: Seq<u8>, d: u8) -> int
    decreases s.len(),
{
    if s.len() == 0 || s[0] == d {
        0
    } else {
        1 + prefix_len(s.drop_first(), d)
    }
}

pub proof fn lemma_prefix_len_bounds(s: Seq<u8>, d: u8)
    ensures
        0 <= prefix_len(s, d) <= s.len(),
        prefix_len(s, d) < s.len() ==> s[prefix_len(s, d)] == d,
        forall|i: int| 0 <= i < prefix_len(s, d) ==> #[trigger] s[i] != d,
    decreases s.len(),
{
    if s.len() > 0 && s[0] != d {
        lemma_prefix_len_bounds(s.drop_first(), d);
        assert forall|i: int| 0 <= i < prefix_len(s, d) implies #[trigger] s[i] != d by {
            if i > 0 {
                assert(s[i] == s.drop_first()[i - 1]);
            }
        }
    }
}

/// Powers of ten
pub open spec fn pow10(n: nat) -> int
    decreases n,
{
    if n == 0 {
        1
    } else {
        10 * pow10((n - 1) as nat)
    }
}

pub proof fn lemma_pow10_positive(n: nat)
    ensures
        pow10(n) >= 1,
    decreases n,
{
    if n > 0 {
        lemma_pow10_positive((n - 1) as nat);
    }
}

/// A run of n digits is worth less than 10^n
pub proof fn lemma_digits_value_bound(s: Seq<u8>)
    requires
        all_digits(s),
    ensures
        0 <= digits_value(s) < pow10(s.len()),
    decreases s.len(),
{
    if s.len() > 0 {
        let p = s.drop_last();
        lemma_digits_value_bound(p);
        let v = digits_value(p);
        let l = s.last() as int - 48;
        let q = pow10(p.len());
        assert(0 <= l <= 9);
        assert(v * 10 + l < q * 10) by (nonlinear_arith)
            requires
                0 <= v < q,
                0 <= l <= 9,
        ;
        assert(s.len() - 1 == p.len());
    }
}

/// Every word holds at least one byte
pub proof fn lemma_words_len(s: Seq<u8>)
    ensures
        words(s).len() <= s.len(),
    decreases s.len(),
{
    if s.len() > 0 {
        if is_space(s[0]) {
            lemma_words_len(s.drop_first());
        } else {
            lemma_word_len_bounds(s);
            lemma_words_len(s.skip(word_len(s)));
        }
    }
}

pub open spec fn parses_as_u64(s: Seq<u8>) -> bool {
    parse_unsigned(s, u64::MAX as int) is Some
}

pub open spec fn u64_value(s: Seq<u8>) -> u64 {
    parse_unsigned(s, u64::MAX as int)->0 as u64
}

/// Decoded values lie between zero and the bound
pub proof fn lemma_parse_unsigned_range(s: Seq<u8>, max: int)
    ensures
        parse_unsigned(s, max) matches Some(v) ==> 0 <= v <= max,
{
    if parse_unsigned(s, max) is Some {
        lemma_digits_value_nonneg(unsigned_digits(s));
    }
}

/// The single digit "0" decodes to zero
pub proof fn lemma_parse_zero(max: int)
    requires
        max >= 0,
    ensures
        parse_unsigned(seq![48u8], max) == Some(0int),
{
    let s = seq![48u8];
    assert(unsigned_digits(s) == s);
    assert(all_digits(s));
    assert(s.drop_last() =~= Seq::<u8>::empty());
    assert(digits_value(Seq::<u8>::empty()) == 0);
    assert(s.last() == 48u8);
    assert(digits_value(s) == digits_value(s.drop_last()) * 10 + (s.last() as int - 48));
}

pub proof fn lemma_digits_value_nonneg(s: Seq<u8>)
    requires
        all_digits(s),
    ensures
        digits_value(s) >= 0,
    decreases s.len(),
{
    if s.len() > 0 {
        lemma_digits_value_nonneg(s.drop_last());
    }
}

/// A longer run of digits never has a smaller value than its prefixes
pub proof fn lemma_digits_value_prefix(s: Seq<u8>, i: int)
    requires
        all_digits(s),
        0 <= i <= s.len(),
    ensures
        digits_value(s.take(i)) <= digits_value(s),
    decreases s.len(),
{
    if i < s.len() {
        assert(s.drop_last().take(i) =~= s.take(i));
        lemma_digits_value_prefix(s.drop_last(), i);
        lemma_digits_value_nonneg(s.drop_last());
    } else {
        assert(s.take(i) =~= s);
    }
}

/// Decode a decimal unsigned integer which must not exceed `max`
pub fn parse_unsigned_bytes(s: &[u8], max: u64) -> (r: Option<u64>)
    ensures
        match r {
            Some(v) => parse_unsigned(s@, max as int) == Some(v as int),
            None => parse_unsigned(s@, max as int) is None,
        },
{
    let len = s.len();
    let start: usize = if len > 0 && s[0] == 43u8 { 1 } else { 0 };
    let ghost d = unsigned_digits(s@);
    assert(d =~= s@.subrange(start as int, len as int));
    if start == len {
        return None;
    }
    let mut v: u64 = 0;
    let mut i: usize = start;
    while i < len
        invariant
            start <= i <= len,
            len == s@.len(),
            d == s@.subrange(start as int, len as int),
            d == unsigned_digits(s@),
            all_digits(d.take(i - start)),
            v as int == digits_value(d.take(i - start)),
            v <= max,
        decreases len - i,
    {
        let c = s[i];
        if c < 48u8 || c > 57u8 {
            assert(d[i - start] == c);
            assert(!is_digit(d[i - start]));
            assert(!all_digits(d));
            return None;
        }
        let digit = (c - 48u8) as u64;
        assert(d.take(i - start + 1).drop_last() =~= d.take(i - start));
        if digit > max || v > (max - digit) / 10 {
            proof {
                assert(v * 10 + digit > max) by (nonlinear_arith)
                    requires
                        digit > max || v > (max - digit) / 10,
                        v >= 0,
                ;
                if all_digits(d) {
                    lemma_digits_value_prefix(d, i - start + 1);
                }
            }
            return None;
        }
        assert(v * 10 + digit <= max) by (nonlinear_arith)
            requires
                v <= (max - digit) / 10,
                digit <= max,
        ;
        v = v * 10 + digit;
        i = i + 1;
        assert(all_digits(d.take(i - start)));
    }
    assert(d.take(len - start) =~= d);
    Some(v)
}

/// Decode a decimal unsigned integer which must not exceed `max`
pub fn parse_unsigned_str(s: &str, max: u64) -> (r: Option<u64>)
    ensures
        match r {
            Some(v) => parse_unsigned(bytes_of(s), max as int) == Some(v as int),
            None => parse_unsigned(bytes_of(s), max as int) is None,
        },
{
    parse_unsigned_bytes(s.as_bytes(), max)
}

/// Decode a decimal signed 64-bit integer
pub fn parse_i64_str(s: &str) -> (r: Option<i64>)
    ensures
        match r {
            Some(v) => parse_i64_spec(bytes_of(s)) == Some(v as int),
            None => parse_i64_spec(bytes_of(s)) is None,
        },
{
    let b = s.as_bytes();
    if b.len() > 0 && b[0] == 45u8 {
        let tail = slice_skip(b, 1);
        assert(tail@ =~= b@.drop_first());
        if tail.len() == 0 || tail[0] < 48u8 || tail[0] > 57u8 {
            proof {
                if tail@.len() > 0 {
                    assert(!is_digit(tail@[0]));
                }
            }
            return None;
        }
        assert(unsigned_digits(tail@) == tail@);
        match parse_unsigned_bytes(tail, 0x8000_0000_0000_0000u64) {
            Some(m) => {
                if m == 0x8000_0000_0000_0000u64 {
                    Some(i64::MIN)
                } else {
                    Some(-(m as i64))
                }
            },
            None => None,
        }
    } else {
        match parse_unsigned_bytes(b, i64::MAX as u64) {
            Some(v) => Some(v as i64),
            None => None,
        }
    }
}

/// Whether index `i` of a UTF-8 text falls between two characters, which is
/// where `str` slicing can cut it without panicking
pub open spec fn char_boundary(s: Seq<u8>, i: int) -> bool {
    i == s.len() || (0 <= i < s.len() && !(128 <= s[i] && s[i] < 192))
}

/// Byte-wise equality of two byte slices
pub fn bytes_equal(a: &[u8], b: &[u8]) -> (r: bool)
    ensures
        r == (a@ == b@),
{
    if a.len() != b.len() {
        return false;
    }
    let mut i: usize = 0;
    while i < a.len()
        invariant
            i <= a@.len() == b@.len(),
            forall|k: int| 0 <= k < i ==> a@[k] == b@[k],
        decreases a@.len() - i,
    {
        if a[i] != b[i] {
            return false;
        }
        i = i + 1;
    }
    assert(a@ =~= b@);
    true
}

/// Whether a byte slice starts with the given bytes
pub fn starts_with_bytes(a: &[u8], prefix: &[u8]) -> (r: bool)
    ensures
        r == (a@.len() >= prefix@.len() && a@.take(prefix@.len() as int) == prefix@),
{
    if a.len() < prefix.len() {
        return false;
    }
    let mut i: usize = 0;
    while i < prefix.len()
        invariant
            i <= prefix@.len() <= a@.len(),
            forall|k: int| 0 <= k < i ==> a@[k] == prefix@[k],
        decreases prefix@.len() - i,
    {
        if a[i] != prefix[i] {
            assert(a@.take(prefix@.len() as int)[i as int] != prefix@[i as int]);
            return false;
        }
        i = i + 1;
    }
    assert(a@.take(prefix@.len() as int) =~= prefix@);
    true
}

/// `s[n..]` for a byte slice
pub fn slice_skip(s: &[u8], n: usize) -> (r: &[u8])
    requires
        n <= s@.len(),
    ensures
        r@ == s@.skip(n as int),
{
    let (_, tail) = s.split_at(n);
    tail
}

pub proof fn lemma_ascii_boundary(bytes: Seq<u8>, i: int)
    requires
        valid_utf8(bytes),
        0 <= i <= bytes.len(),
        i == 0 || i == bytes.len() || bytes[i] < 128,
    ensures
        is_char_boundary(bytes, i),
{
    broadcast use is_char_boundary_start_end_of_seq, is_char_boundary_iff_not_is_continuation_byte;

    if i < bytes.len() {
        assert(!is_continuation_byte(bytes[i]));
    }
}

/// `s[..n]`, where a character of `s` ends at byte n
pub fn prefix_str<'a>(s: &'a str, n: usize) -> (r: &'a str)
    requires
        n <= bytes_of(s).len(),
        char_boundary(bytes_of(s), n as int),
    ensures
        bytes_of(r) == bytes_of(s).take(n as int),
{
    broadcast use encode_utf8_valid_utf8, is_char_boundary_start_end_of_seq,
        is_char_boundary_iff_not_is_continuation_byte;

    let ghost b = bytes_of(s);
    proof {
        if n < b.len() {
            assert(!is_continuation_byte(b[n as int]));
        }
    }
    let (head, _) = s.split_at(n);
    assert(bytes_of(head) =~= b.take(n as int));
    head
}

/// Cut the substring `s[from..to]` out of a string, where both ends of the
/// substring are delimited by ASCII characters (or the ends of the string).
pub fn slice_str<'a>(s: &'a str, from: usize, to: usize) -> (r: &'a str)
    requires
        from <= to <= bytes_of(s).len(),
        from == 0 || bytes_of(s)[from - 1] < 128,
        to == bytes_of(s).len() || bytes_of(s)[to as int] < 128,
    ensures
        bytes_of(r) == bytes_of(s).subrange(from as int, to as int),
{
    broadcast use encode_utf8_valid_utf8;

    let ghost t = bytes_of(s);
    let rest: &'a str = if from == 0 {
        proof { lemma_ascii_boundary(t, 0); }
        let (_, r0) = s.split_at(0);
        r0
    } else {
        proof { lemma_ascii_boundary(t, from - 1); }
        let (_, r1) = s.split_at(from - 1);
        let ghost u = bytes_of(r1);
        assert(u.len() >= 1);
        assert(u[0] < 128);
        assert(valid_utf8(u));
        assert(length_of_first_scalar(u) == 1);
        assert(is_char_boundary(u, 1)) by {
            reveal_with_fuel(is_char_boundary, 2);
        }
        let (_, r2) = r1.split_at(1);
        assert(bytes_of(r2) =~= t.subrange(from as int, t.len() as int));
        r2
    };
    let ghost v = bytes_of(rest);
    assert(v =~= t.subrange(from as int, t.len() as int));
    proof {
        if to < t.len() {
            assert(v[to - from] == t[to as int]);
        }
        lemma_ascii_boundary(v, to - from);
    }
    let (word, _) = rest.split_at(to - from);
    assert(bytes_of(word) =~= t.subrange(from as int, to as int));
    word
}

} // verus!
