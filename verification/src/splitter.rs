//! A mechanism for splitting the content of pseudo-files by newlines and spaces
//!
//! The metadata provided by procfs pseudo-files often has a two-dimensional
//! inner structure. Lines of text represent different devices or categories of
//! information, whereas space-separated columns are used to separate the
//! details of a single line (e.g. idle CPU time vs user-mode CPU time).
//!
//! The splitter below separates lines and columns in a single pass through
//! the text, using the knowledge that the kernel only separates its ASCII
//! output with newlines and spaces.
use vstd::prelude::*;
use crate::text::{lemma_words_len, bytes_of, is_newline, is_space, line_len, lines, word_len, words, slice_str,
    lemma_line_len_bounds, lemma_word_len_bounds};

verus! {

/// Position of the end of the line which contains position `q` of `t`
pub open spec fn line_end(t: Seq<u8>, q: int) -> int {
    q + line_len(t.subrange(q, t.len() as int))
}

/// Stepping over a byte which is not a line feed stays on the same line
proof fn lemma_line_end_step(t: Seq<u8>, q: int)
    requires
        0 <= q <= t.len(),
    ensures
        q <= line_end(t, q) <= t.len(),
        q == t.len() ==> line_end(t, q) == q,
        q < t.len() && is_newline(t[q]) ==> line_end(t, q) == q,
        q < t.len() && !is_newline(t[q]) ==> line_end(t, q) == line_end(t, q + 1),
        line_end(t, q) < t.len() ==> is_newline(t[line_end(t, q)]),
{
    let s = t.subrange(q, t.len() as int);
    lemma_line_len_bounds(s);
    if q < t.len() {
        assert(s.drop_first() =~= t.subrange(q + 1, t.len() as int));
        assert(s[0] == t[q]);
    }
    if line_end(t, q) < t.len() {
        assert(s[line_len(s)] == t[line_end(t, q)]);
    }
}

/// Stepping over a byte of a line, with respect to word decomposition
proof fn lemma_word_step(t: Seq<u8>, q: int, e: int)
    requires
        0 <= q < e <= t.len(),
    ensures
        t.subrange(q, e).drop_first() == t.subrange(q + 1, e),
        is_space(t[q]) ==> words(t.subrange(q, e)) == words(t.subrange(q + 1, e)),
        is_space(t[q]) ==> word_len(t.subrange(q, e)) == 0,
        !is_space(t[q]) ==> word_len(t.subrange(q, e)) == 1 + word_len(t.subrange(q + 1, e)),
        !is_space(t[q]) ==> words(t.subrange(q, e)) == seq![
            t.subrange(q, q + word_len(t.subrange(q, e))),
        ] + words(t.subrange(q + word_len(t.subrange(q, e)), e)),
{
    let s = t.subrange(q, e);
    assert(s.drop_first() =~= t.subrange(q + 1, e));
    assert(s[0] == t[q]);
    lemma_word_len_bounds(s);
    let n = word_len(s);
    assert(s.take(n) =~= t.subrange(q, q + n));
    assert(s.skip(n) =~= t.subrange(q + n, e));
}

/// State machine used by SplitLinesBySpace when iterating over lines
#[derive(Debug, PartialEq)]
pub enum LineSpaceSplitterStatus {
    AtLineStart,
    InsideLine,
    AtInputEnd,
}

/// Iterator over the ASCII bytes of a string, seen as characters, which can
/// also tell the byte index of the last character and step back by one.
///
/// This iterator is fused: it will continue to output None indefinitely after
/// the end.
#[derive(Debug, PartialEq)]
pub struct FastCharIndices<'a> {
    /// Byte-wise view of the input string
    raw_bytes: &'a [u8],
    /// Byte index of the _next_ character
    next_char_index: usize,
}

impl<'a> FastCharIndices<'a> {
    /// The bytes which are being iterated over
    pub closed spec fn bytes(self) -> Seq<u8> {
        self.raw_bytes@
    }

    /// Byte index of the next character
    pub closed spec fn index(self) -> usize {
        self.next_char_index
    }

    /// Initialize the iterator
    pub fn new(input: &'a str) -> (r: Self)
        ensures
            r.bytes() == bytes_of(input),
            r.index() == 0,
    {
        FastCharIndices { raw_bytes: input.as_bytes(), next_char_index: 0 }
    }

    /// Non-destructively tell whether we reached the end of the iterator
    pub fn is_empty(&self) -> (r: bool)
        ensures
            r == (self.index() >= self.bytes().len()),
            self.bytes().len() <= usize::MAX,
    {
        self.next_char_index >= self.raw_bytes.len()
    }

    /// Tell what was the index of the last character from next()
    pub fn prev_index(&self) -> (r: usize)
        requires
            self.index() >= 1,
        ensures
            r == self.index() - 1,
    {
        self.next_char_index - 1
    }

    /// Go back to the previous character, reverting the action of next()
    pub fn back(&mut self)
        requires
            old(self).index() >= 1,
        ensures
            final(self).bytes() == old(self).bytes(),
            final(self).index() == old(self).index() - 1,
    {
        self.next_char_index = self.next_char_index - 1;
    }

    /// Yield the next character, if any, and move to the following one. The
    /// index keeps growing past the end of the input (it only stops at the
    /// largest representable index).
    pub fn next(&mut self) -> (r: Option<char>)
        ensures
            final(self).bytes() == old(self).bytes(),
            old(self).index() < old(self).bytes().len() ==> r == Some(
                old(self).bytes()[old(self).index() as int] as char,
            ),
            old(self).index() >= old(self).bytes().len() ==> r is None,
            final(self).index() == if old(self).index() < old(self).bytes().len()
                || old(self).index() < usize::MAX {
                old(self).index() + 1
            } else {
                old(self).index() as int
            },
    {
        let i = self.next_char_index;
        let result = if i < self.raw_bytes.len() {
            Some(self.raw_bytes[i] as char)
        } else {
            None
        };
        if i < usize::MAX {
            self.next_char_index = i + 1;
        }
        result
    }
}

/// Mechanism for splitting the elements of newlines- and space-separated text
///
/// To use this pseudo-file splitter, proceed as follows:
///
/// - Initialize it on an input string with new()
/// - To iterate over lines, call next(). If there is a line of text left in the
///   input, this will produce an iterator over the space-separated columns of
///   that line, otherwise this function will return None.
///
/// The "parent" line iterator and its "children" column iterators share a
/// common character iterator, so each line is only scanned once. A column
/// iterator borrows its parent, so the parent cannot move to the next line
/// while a column iterator is alive.
#[derive(Debug, PartialEq)]
pub struct SplitLinesBySpace<'a> {
    /// Reference to the string which we are trying to split
    target: &'a str,
    /// Iterator over the characters and their byte indices
    char_iter: FastCharIndices<'a>,
    /// Where we are within the input
    status: LineSpaceSplitterStatus,
}

impl<'a> SplitLinesBySpace<'a> {
    /// The text being split
    pub closed spec fn text(self) -> Seq<u8> {
        self.char_iter.raw_bytes@
    }

    /// The string being split
    pub closed spec fn target(self) -> &'a str {
        self.target
    }

    /// Current position in the text (clamped to the end of the text)
    closed spec fn cursor(self) -> int {
        if self.char_iter.next_char_index < self.text().len() {
            self.char_iter.next_char_index as int
        } else {
            self.text().len() as int
        }
    }

    /// Internal consistency of the splitter
    pub closed spec fn wf(self) -> bool {
        let t = self.text();
        let i = self.char_iter.next_char_index as int;
        &&& bytes_of(self.target) == t
        &&& t.len() <= usize::MAX
        &&& match self.status {
            LineSpaceSplitterStatus::AtLineStart => i < t.len() && (i == 0 || is_newline(t[i - 1])),
            LineSpaceSplitterStatus::InsideLine => i == 0 || i >= t.len() || t[i - 1] < 128
                || is_newline(t[i]),
            LineSpaceSplitterStatus::AtInputEnd => true,
        }
    }

    /// Whether the splitter is currently iterating over the columns of a line
    pub closed spec fn is_inside_line(self) -> bool {
        self.status is InsideLine
    }

    /// Lines which have not been reached yet (excluding the current line)
    pub closed spec fn remaining_lines(self) -> Seq<Seq<u8>> {
        let t = self.text();
        let q = self.cursor();
        match self.status {
            LineSpaceSplitterStatus::AtLineStart => lines(t.subrange(q, t.len() as int)),
            LineSpaceSplitterStatus::InsideLine => if line_end(t, q) < t.len() {
                lines(t.subrange(line_end(t, q) + 1, t.len() as int))
            } else {
                seq![]
            },
            LineSpaceSplitterStatus::AtInputEnd => seq![],
        }
    }

    /// Words of the current line which have not been yielded yet
    pub closed spec fn line_words(self) -> Seq<Seq<u8>> {
        let t = self.text();
        let q = self.cursor();
        if self.status is InsideLine {
            words(t.subrange(q, line_end(t, q)))
        } else {
            seq![]
        }
    }

    /// There are no more words left in a line than there are bytes in the text
    pub proof fn lemma_line_words_len(self)
        requires
            self.wf(),
        ensures
            self.line_words().len() <= self.text().len(),
            self.text().len() <= usize::MAX,
    {
        let t = self.text();
        let q = self.cursor();
        if self.status is InsideLine {
            lemma_line_end_step(t, q);
            lemma_words_len(t.subrange(q, line_end(t, q)));
        }
    }

    /// Two states of a splitter over the same string, with the same lines
    /// left to iterate over
    pub open spec fn same_lines(before: Self, after: Self) -> bool {
        &&& after.wf()
        &&& after.text() == before.text()
        &&& after.target() == before.target()
        &&& after.remaining_lines() == before.remaining_lines()
    }

    /// Create a line- and space-splitting iterator
    pub fn new(target: &'a str) -> (r: Self)
        ensures
            r.wf(),
            r.target() == target,
            r.text() == bytes_of(target),
            r.remaining_lines() == lines(bytes_of(target)),
            !r.is_inside_line(),
    {
        let char_iter = FastCharIndices::new(target);
        let input_empty = char_iter.is_empty();
        let r = SplitLinesBySpace {
            target,
            char_iter,
            status: if input_empty {
                LineSpaceSplitterStatus::AtInputEnd
            } else {
                LineSpaceSplitterStatus::AtLineStart
            },
        };
        assert(bytes_of(target).subrange(0, bytes_of(target).len() as int) =~= bytes_of(target));
        r
    }

    /// Go to the beginning of the next line, if any, and tell if it exists.
    /// The current line, if any, is skipped.
    pub fn advance_line(&mut self) -> (r: bool)
        requires
            old(self).wf(),
        ensures
            final(self).wf(),
            final(self).text() == old(self).text(),
            final(self).target() == old(self).target(),
            r == (old(self).remaining_lines().len() > 0),
            r ==> final(self).is_inside_line() && final(self).line_words() == words(
                old(self).remaining_lines()[0],
            ) && final(self).remaining_lines() == old(self).remaining_lines().drop_first(),
            !r ==> !final(self).is_inside_line() && final(self).remaining_lines().len() == 0,
    {
        let ghost t = self.text();
        match self.status {
            LineSpaceSplitterStatus::AtLineStart => {
                let ghost q = self.cursor();
                proof {
                    let s = t.subrange(q, t.len() as int);
                    lemma_line_len_bounds(s);
                    let n = line_len(s);
                    assert(s.take(n) =~= t.subrange(q, line_end(t, q)));
                    if n < s.len() {
                        assert(s.skip(n + 1) =~= t.subrange(line_end(t, q) + 1, t.len() as int));
                    }
                }
                self.status = LineSpaceSplitterStatus::InsideLine;
                true
            },
            LineSpaceSplitterStatus::InsideLine => {
                let ghost e = line_end(t, self.cursor());
                proof {
                    lemma_line_end_step(t, self.cursor());
                }
                loop
                    invariant
                        bytes_of(self.target) == t,
                        self.text() == t,
                t.len() <= usize::MAX,
                        t.len() <= usize::MAX,
                        self.target() == old(self).target(),
                        self.status is InsideLine,
                        self.cursor() <= e,
                        line_end(t, self.cursor()) == e,
                        e == line_end(t, old(self).cursor()),
                        e <= t.len(),
                        old(self).text() == t,
                        old(self).status is InsideLine,
                        old(self).cursor() <= e,
                    decreases t.len() - self.cursor(),
                {
                    let ghost q = self.cursor();
                    proof {
                        lemma_line_end_step(t, q);
                    }
                    match self.char_iter.next() {
                        Some('\n') => {
                            assert(is_newline(t[q]));
                            if self.char_iter.is_empty() {
                                self.status = LineSpaceSplitterStatus::AtInputEnd;
                                assert(t.subrange(e + 1, t.len() as int).len() == 0);
                                return false;
                            } else {
                                proof {
                                    let s = t.subrange(e + 1, t.len() as int);
                                    lemma_line_len_bounds(s);
                                    let n = line_len(s);
                                    assert(s.take(n) =~= t.subrange(e + 1, line_end(t, e + 1)));
                                    if n < s.len() {
                                        assert(s.skip(n + 1) =~= t.subrange(
                                            line_end(t, e + 1) + 1,
                                            t.len() as int,
                                        ));
                                    }
                                }
                                return true;
                            }
                        },
                        Some(c) => {
                            assert(!is_newline(t[q]));
                            proof {
                                lemma_line_end_step(t, q + 1);
                            }
                        },
                        None => {
                            self.status = LineSpaceSplitterStatus::AtInputEnd;
                            return false;
                        },
                    }
                }
            },
            LineSpaceSplitterStatus::AtInputEnd => false,
        }
    }

    /// Yield the next word of the current line, if any. When the line is
    /// over, the splitter leaves it and None is returned.
    pub fn next_word(&mut self) -> (r: Option<&'a str>)
        requires
            old(self).wf(),
            old(self).is_inside_line(),
        ensures
            Self::same_lines(*old(self), *final(self)),
            match r {
                None => old(self).line_words().len() == 0 && !final(self).is_inside_line(),
                Some(w) => {
                    &&& old(self).line_words().len() > 0
                    &&& bytes_of(w) == old(self).line_words()[0]
                    &&& final(self).is_inside_line()
                    &&& final(self).line_words() == old(self).line_words().drop_first()
                },
            },
    {
        let ghost t = self.text();
        let ghost q0 = self.cursor();
        let ghost e = line_end(t, q0);
        let ghost rl = self.remaining_lines();
        let ghost ws = self.line_words();
        proof {
            lemma_line_end_step(t, q0);
        }
        // Skip the spaces in front of the next word
        let first_idx: usize;
        loop
            invariant_except_break
                self.wf(),
                self.text() == t,
                t.len() <= usize::MAX,
                self.target() == old(self).target(),
                self.status is InsideLine,
                q0 <= self.cursor() <= e,
                line_end(t, self.cursor()) == e,
                e <= t.len(),
                self.remaining_lines() == rl,
                words(t.subrange(self.cursor(), e)) == ws,
                old(self).text() == t,
                old(self).remaining_lines() == rl,
                old(self).line_words() == ws,
            ensures
                bytes_of(self.target) == t,
                self.text() == t,
                t.len() <= usize::MAX,
                self.target() == old(self).target(),
                self.status is InsideLine,
                self.remaining_lines() == rl,
                q0 <= first_idx < e,
                first_idx < t.len(),
                line_end(t, first_idx as int) == e,
                first_idx + 1 == self.char_iter.next_char_index,
                !is_space(t[first_idx as int]),
                !is_newline(t[first_idx as int]),
                first_idx == 0 || t[first_idx - 1] < 128,
                words(t.subrange(first_idx as int, e)) == ws,
            decreases t.len() - self.cursor(),
        {
            let ghost q = self.cursor();
            proof {
                lemma_line_end_step(t, q);
            }
            match self.char_iter.next() {
                Some(' ') => {
                    proof {
                        lemma_word_step(t, q, e);
                        lemma_line_end_step(t, q + 1);
                    }
                },
                Some('\n') => {
                    assert(t.subrange(q, e).len() == 0);
                    assert(words(t.subrange(q, e)) =~= seq![]);
                    self.status = if self.char_iter.is_empty() {
                        LineSpaceSplitterStatus::AtInputEnd
                    } else {
                        LineSpaceSplitterStatus::AtLineStart
                    };
                    proof {
                        if e + 1 >= t.len() {
                            assert(t.subrange(e + 1, t.len() as int).len() == 0);
                        }
                    }
                    return None;
                },
                Some(_) => {
                    first_idx = self.char_iter.prev_index();
                    break ;
                },
                None => {
                    assert(words(t.subrange(q, e)) =~= seq![]);
                    self.status = LineSpaceSplitterStatus::AtInputEnd;
                    return None;
                },
            }
        }
        let ghost f = first_idx as int;
        proof {
            lemma_word_step(t, f, e);
            lemma_line_end_step(t, f);
            lemma_line_end_step(t, f + 1);
        }
        let ghost n = word_len(t.subrange(f, e));
        // Find the end of the word
        loop
            invariant
                bytes_of(self.target) == t,
                self.text() == t,
                t.len() <= usize::MAX,
                self.target() == old(self).target(),
                self.status is InsideLine,
                self.remaining_lines() == rl,
                f < self.cursor() <= e,
                f == first_idx,
                self.char_iter.next_char_index >= 1,
                line_end(t, self.cursor()) == e,
                word_len(t.subrange(f, e)) == n,
                n == (self.cursor() - f) + word_len(t.subrange(self.cursor(), e)),
                ws == seq![t.subrange(f, f + n)] + words(t.subrange(f + n, e)),
                f == 0 || t[f - 1] < 128,
                e <= t.len(),
                old(self).text() == t,
                old(self).remaining_lines() == rl,
                old(self).line_words() == ws,
            decreases t.len() - self.cursor(),
        {
            let ghost q = self.cursor();
            proof {
                lemma_line_end_step(t, q);
            }
            match self.char_iter.next() {
                Some(' ') => {
                    let last_idx = self.char_iter.prev_index();
                    assert(q < t.len());
                    assert(last_idx == q);
                    assert(is_space(t[q]));
                    proof {
                        lemma_word_step(t, q, e);
                    }
                    assert(last_idx == f + n);
                    let word = slice_str(self.target, first_idx, last_idx);
                    return Some(word);
                },
                Some('\n') => {
                    let last_idx = self.char_iter.prev_index();
                    self.char_iter.back();
                    assert(q == e);
                    assert(t.subrange(q, e).len() == 0);
                    assert(last_idx == f + n);
                    assert(words(t.subrange(q, e)) =~= seq![]);
                    let word = slice_str(self.target, first_idx, last_idx);
                    return Some(word);
                },
                Some(_) => {
                    proof {
                        lemma_word_step(t, q, e);
                        lemma_line_end_step(t, q + 1);
                    }
                },
                None => {
                    assert(q == t.len());
                    assert(t.subrange(q, e).len() == 0);
                    assert(words(t.subrange(q, e)) =~= seq![]);
                    let len = self.target.len();
                    let word = slice_str(self.target, first_idx, len);
                    return Some(word);
                },
            }
        }
    }

    /// Iterate over lines: yield an iterator over the columns of the next
    /// line, if there is one.
    pub fn next<'b>(&'b mut self) -> (r: Option<SplitColumns<'a, 'b>>)
        where 'a: 'b
        requires
            old(self).wf(),
        ensures
            match r {
                None => {
                    &&& old(self).remaining_lines().len() == 0
                    &&& Self::same_lines(*old(self), *final(self))
                },
                Some(columns) => {
                    &&& old(self).remaining_lines().len() > 0
                    &&& columns.parent.wf()
                    &&& columns.parent.is_inside_line()
                    &&& columns.parent.text() == old(self).text()
                    &&& columns.parent.target() == old(self).target()
                    &&& columns.parent.line_words() == words(old(self).remaining_lines()[0])
                    &&& columns.parent.remaining_lines() == old(self).remaining_lines().drop_first()
                    &&& *final(self) == *final(columns.parent)
                },
            },
    {
        if self.advance_line() {
            Some(SplitColumns { parent: self })
        } else {
            None
        }
    }
}

/// Iterator over the space-separated columns of one line of text, produced
/// by SplitLinesBySpace. It advances the character iterator of its parent.
#[derive(Debug, PartialEq)]
pub struct SplitColumns<'a, 'b> where 'a: 'b {
    /// Underlying SplitLinesBySpace iterator
    pub parent: &'b mut SplitLinesBySpace<'a>,
}

impl<'a, 'b> SplitColumns<'a, 'b> {
    /// Words of the line which have not been yielded yet
    pub open spec fn remaining_words(self) -> Seq<Seq<u8>> {
        self.parent.line_words()
    }

    /// Whether the columns can still be iterated over (they cannot after the
    /// end of the line was signaled)
    pub open spec fn is_open(self) -> bool {
        self.parent.wf() && self.parent.is_inside_line()
    }

    /// Iterate over the space-separated columns until the end of the line
    pub fn next(&mut self) -> (r: Option<&'a str>)
        requires
            old(self).is_open(),
        ensures
            SplitLinesBySpace::same_lines(*old(self).parent, *final(self).parent),
            *final(final(self).parent) == *final(old(self).parent),
            match r {
                None => old(self).remaining_words().len() == 0 && !final(self).is_open(),
                Some(w) => {
                    &&& old(self).remaining_words().len() > 0
                    &&& bytes_of(w) == old(self).remaining_words()[0]
                    &&& final(self).is_open()
                    &&& final(self).remaining_words() == old(self).remaining_words().drop_first()
                },
            },
    {
        self.parent.next_word()
    }
}


/// Run a function on the columns of a single line of text, as testing code
/// often needs to split a single line of text, even though the real thing
/// operates on more complex input.
pub fn split_and_run<F, R>(input: &str, test_runner: F) -> (r: R)
    where F: FnOnce(SplitColumns) -> R
    requires
        lines(bytes_of(input)).len() == 1,
        forall|columns: SplitColumns|
            columns.is_open() && columns.remaining_words() == words(lines(bytes_of(input))[0])
                ==> #[trigger] test_runner.requires((columns,)),
    ensures
        exists|columns: SplitColumns|
            columns.is_open() && columns.remaining_words() == words(lines(bytes_of(input))[0])
                && #[trigger] test_runner.ensures((columns,), r),
{
    let mut lines = SplitLinesBySpace::new(input);
    let first_line = lines.next().unwrap();
    assert(first_line.is_open());
    let result = test_runner(first_line);
    result
}

} // verus!
