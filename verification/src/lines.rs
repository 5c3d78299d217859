//! Identification, validation and splitting of strings along vertical whitespace.
//!
//! Besides `'\n'`, `'\r'` and `"\r\n"`, the following are newline sequences:
//! `'\u{000B}'` (VT), `'\u{000C}'` (FF), `'\u{0085}'` (NEL), `'\u{2028}'` (LS)
//! and `'\u{2029}'` (PS).
//!
//! All positions are byte offsets into the UTF-8 encoding of the text, and the
//! specifications speak of that encoding (`spec_bytes`).

use vstd::prelude::*;
use vstd::utf8::*;
use vstd::string::*;

use std::borrow::Cow;

verus! {

broadcast use vstd::utf8::encode_utf8_valid_utf8, vstd::utf8::is_char_boundary_start_end_of_seq;

/// The byte length of the newline sequence that starts at byte `i` of `b`,
/// or 0 when no newline sequence starts there.
pub open spec fn linebreak_at(b: Seq<u8>, i: int) -> nat {
    if 0 <= i && i + 1 < b.len() && b[i] == 0x0Du8 && b[i + 1] == 0x0Au8 {
        2
    } else if 0 <= i < b.len() && (b[i] == 0x0Du8 || b[i] == 0x0Au8 || b[i] == 0x0Bu8
        || b[i] == 0x0Cu8) {
        1
    } else if 0 <= i && i + 1 < b.len() && b[i] == 0xC2u8 && b[i + 1] == 0x85u8 {
        2
    } else if 0 <= i && i + 2 < b.len() && b[i] == 0xE2u8 && b[i + 1] == 0x80u8 && (b[i + 2]
        == 0xA8u8 || b[i + 2] == 0xA9u8) {
        3
    } else {
        0
    }
}

/// No newline sequence starts anywhere in `b`.
pub open spec fn free_of_linebreaks(b: Seq<u8>) -> bool {
    forall|i: int| 0 <= i < b.len() ==> #[trigger] linebreak_at(b, i) == 0
}

/// `off` is the first byte offset at or after `from` where a newline sequence starts.
pub open spec fn first_linebreak_from(b: Seq<u8>, from: int, off: int) -> bool {
    &&& 0 <= from <= off < b.len()
    &&& linebreak_at(b, off) > 0
    &&& forall|j: int| from <= j < off ==> #[trigger] linebreak_at(b, j) == 0
}

/// No newline sequence starts at or after `from`.
pub open spec fn no_linebreak_from(b: Seq<u8>, from: int) -> bool {
    forall|j: int| from <= j < b.len() ==> #[trigger] linebreak_at(b, j) == 0
}

/// The lines of `b` from the line that starts at `start`, where the scan for
/// the next newline sequence has reached `cur` (with `start <= cur`).
pub open spec fn lines_from(b: Seq<u8>, start: int, cur: int) -> Seq<Seq<u8>>
    decreases b.len() - cur,
{
    if cur >= b.len() || cur < start {
        seq![b.subrange(start, b.len() as int)]
    } else if linebreak_at(b, cur) > 0 {
        let next = cur + linebreak_at(b, cur);
        seq![b.subrange(start, cur)].add(lines_from(b, next, next))
    } else {
        lines_from(b, start, cur + 1)
    }
}

/// The lines of `b`: the pieces between its newline sequences, the last one
/// running to the end (and empty when `b` ends with a newline sequence).
pub open spec fn split_lines(b: Seq<u8>) -> Seq<Seq<u8>> {
    lines_from(b, 0, 0)
}

/// The byte after a complete UTF-8 scalar that starts on a character boundary
/// is itself a character boundary.
proof fn lemma_next_boundary(b: Seq<u8>, j: int)
    requires
        valid_utf8(b),
        is_char_boundary(b, j),
        0 <= j < b.len(),
    ensures
        0 < length_of_first_scalar(b.subrange(j, b.len() as int)) <= b.len() - j,
        is_char_boundary(b, j + length_of_first_scalar(b.subrange(j, b.len() as int))),
    decreases b.len(),
{
    let rest = b.subrange(j, b.len() as int);
    valid_utf8_split(b, j);
    assert(valid_first_scalar(rest));
    let n = length_of_first_scalar(rest);
    if j == 0 {
        assert(rest =~= b);
        assert(is_char_boundary(pop_first_scalar(b), 0));
    } else {
        let l = length_of_first_scalar(b);
        let p = pop_first_scalar(b);
        assert(is_char_boundary(p, j - l));
        assert(j - l >= 0);
        lemma_next_boundary(p, j - l);
        assert(p.subrange(j - l, p.len() as int) =~= rest);
        assert(is_char_boundary(p, j - l + n));
    }
}

/// Newline sequences begin and end on character boundaries.
pub proof fn lemma_linebreak_boundaries(b: Seq<u8>, j: int)
    requires
        valid_utf8(b),
        0 <= j < b.len(),
        linebreak_at(b, j) > 0,
    ensures
        is_char_boundary(b, j),
        is_char_boundary(b, j + linebreak_at(b, j)),
{
    is_char_boundary_iff_not_is_continuation_byte(b, j);
    assert(is_char_boundary(b, j));
    lemma_next_boundary(b, j);
    let rest = b.subrange(j, b.len() as int);
    assert(rest[0] == b[j]);
    if b[j] == 0x0Du8 && j + 1 < b.len() && b[j + 1] == 0x0Au8 {
        assert(length_of_first_scalar(rest) == 1);
        lemma_next_boundary(b, j + 1);
        let rest2 = b.subrange(j + 1, b.len() as int);
        assert(rest2[0] == b[j + 1]);
        assert(length_of_first_scalar(rest2) == 1);
    } else if b[j] == 0xC2u8 {
        assert(length_of_first_scalar(rest) == 2);
    } else if b[j] == 0xE2u8 {
        assert(length_of_first_scalar(rest) == 3);
    } else {
        assert(length_of_first_scalar(rest) == 1);
    }
}

/// Every line lies between newline sequences, so none contains one.
proof fn lemma_lines_from_free(b: Seq<u8>, start: int, cur: int)
    requires
        0 <= start <= cur <= b.len(),
        forall|j: int| start <= j < cur ==> #[trigger] linebreak_at(b, j) == 0,
    ensures
        forall|k: int|
            0 <= k < lines_from(b, start, cur).len() ==> free_of_linebreaks(
                #[trigger] lines_from(b, start, cur)[k],
            ),
    decreases b.len() - cur,
{
    if cur >= b.len() {
        lemma_segment_free(b, start, b.len() as int);
        assert(lines_from(b, start, cur) == seq![b.subrange(start, b.len() as int)]);
    } else if linebreak_at(b, cur) > 0 {
        let next = cur + linebreak_at(b, cur);
        assert(next <= b.len());
        lemma_segment_free(b, start, cur);
        lemma_lines_from_free(b, next, next);
        let rest = lines_from(b, next, next);
        let all = seq![b.subrange(start, cur)].add(rest);
        assert forall|k: int| 0 <= k < all.len() implies free_of_linebreaks(#[trigger] all[k]) by {
            if k > 0 {
                assert(all[k] == rest[k - 1]);
            }
        }
        assert(lines_from(b, start, cur) == all);
    } else {
        lemma_lines_from_free(b, start, cur + 1);
        assert(lines_from(b, start, cur) == lines_from(b, start, cur + 1));
    }
}

/// A segment in which no newline sequence starts is free of newline sequences.
proof fn lemma_segment_free(b: Seq<u8>, start: int, end: int)
    requires
        0 <= start <= end <= b.len(),
        forall|j: int| start <= j < end ==> #[trigger] linebreak_at(b, j) == 0,
    ensures
        free_of_linebreaks(b.subrange(start, end)),
{
    let s = b.subrange(start, end);
    assert forall|i: int| 0 <= i < s.len() implies #[trigger] linebreak_at(s, i) == 0 by {
        assert(linebreak_at(b, start + i) == 0);
    }
}

/// Every line of a text is free of newline sequences.
pub proof fn lemma_split_lines_free(b: Seq<u8>)
    ensures
        forall|k: int|
            0 <= k < split_lines(b).len() ==> free_of_linebreaks(#[trigger] split_lines(b)[k]),
{
    lemma_lines_from_free(b, 0, 0);
}

/// Scanning past positions where no newline sequence starts does not change the lines.
proof fn lemma_lines_from_skip(b: Seq<u8>, start: int, cur: int, to: int)
    requires
        0 <= start <= cur <= to <= b.len(),
        forall|j: int| cur <= j < to ==> #[trigger] linebreak_at(b, j) == 0,
    ensures
        lines_from(b, start, cur) == lines_from(b, start, to),
    decreases to - cur,
{
    if cur < to {
        lemma_lines_from_skip(b, start, cur + 1, to);
    }
}

/// Byte-level newline detection, on any offset.
fn bytes_linebreak_len(b: &[u8], i: usize) -> (r: usize)
    ensures
        r == linebreak_at(b@, i as int),
{
    let n = b.len();
    if i >= n {
        return 0;
    }
    let c = b[i];
    if c == 0x0D && i + 1 < n && b[i + 1] == 0x0A {
        2
    } else if c == 0x0D || c == 0x0A || c == 0x0B || c == 0x0C {
        1
    } else if c == 0xC2 && i + 1 < n && b[i + 1] == 0x85 {
        2
    } else if c == 0xE2 && n - i > 2 && b[i + 1] == 0x80 && (b[i + 2] == 0xA8 || b[i + 2]
        == 0xA9) {
        3
    } else {
        0
    }
}

/// Byte-level search for the next newline sequence at or after `index`.
fn bytes_next_linebreak(b: &[u8], index: usize) -> (r: Option<(usize, usize)>)
    ensures
        match r {
            Some((off, span)) => first_linebreak_from(b@, index as int, off as int) && span
                == linebreak_at(b@, off as int),
            None => no_linebreak_from(b@, index as int),
        },
{
    let n = b.len();
    let mut offset = index;
    while offset < n
        invariant
            n == b@.len(),
            index <= offset,
            forall|j: int| index <= j < offset ==> #[trigger] linebreak_at(b@, j) == 0,
        decreases n - offset,
    {
        let span = bytes_linebreak_len(b, offset);
        if span > 0 {
            return Some((offset, span));
        }
        offset = offset + 1;
    }
    None
}

/// Given a string and a byte index, reports whether a newline sequence starts
/// there, and if so its byte length.
///
/// The index must fall on a character boundary of the string.
pub fn linebreak_len(text: &str, index: usize) -> (r: Option<usize>)
    requires
        is_char_boundary(text.spec_bytes(), index as int),
    ensures
        r == (if linebreak_at(text.spec_bytes(), index as int) > 0 {
            Some(linebreak_at(text.spec_bytes(), index as int) as usize)
        } else {
            None::<usize>
        }),
{
    let b = text.as_bytes();
    let l = bytes_linebreak_len(b, index);
    if l > 0 {
        Some(l)
    } else {
        None
    }
}

/// Returns the (byte offset, byte length) of the first newline sequence at or
/// after `index`, if any.
pub fn next_linebreak(text: &str, index: usize) -> (r: Option<(usize, usize)>)
    ensures
        match r {
            Some((off, span)) => first_linebreak_from(text.spec_bytes(), index as int, off as int)
                && span == linebreak_at(text.spec_bytes(), off as int),
            None => no_linebreak_from(text.spec_bytes(), index as int),
        },
{
    bytes_next_linebreak(text.as_bytes(), index)
}


/// There is always at least one line, and exactly one when no newline
/// sequence starts at or after the scan position.
pub proof fn lemma_lines_from_len(b: Seq<u8>, start: int, cur: int)
    requires
        0 <= start <= cur <= b.len(),
    ensures
        lines_from(b, start, cur).len() >= 1,
        (lines_from(b, start, cur).len() == 1) <==> no_linebreak_from(b, cur),
    decreases b.len() - cur,
{
    if cur >= b.len() {
    } else if linebreak_at(b, cur) > 0 {
        let next = cur + linebreak_at(b, cur);
        lemma_lines_from_len(b, next, next);
    } else {
        lemma_lines_from_len(b, start, cur + 1);
        if no_linebreak_from(b, cur + 1) {
            assert forall|j: int| cur <= j < b.len() implies #[trigger] linebreak_at(b, j) == 0 by {
                if j > cur {
                    assert(linebreak_at(b, j) == 0);
                }
            }
        }
    }
}

/// Every line is a piece of the text: when the text holds no tab, neither
/// does any of its lines.
pub proof fn lemma_lines_from_keep(b: Seq<u8>, start: int, cur: int, byte: u8)
    requires
        0 <= start <= cur <= b.len(),
        forall|j: int| 0 <= j < b.len() ==> #[trigger] b[j] != byte,
    ensures
        forall|k: int, j: int|
            0 <= k < lines_from(b, start, cur).len() && 0 <= j < lines_from(b, start, cur)[k].len()
                ==> #[trigger] lines_from(b, start, cur)[k][j] != byte,
    decreases b.len() - cur,
{
    if cur >= b.len() {
    } else if linebreak_at(b, cur) > 0 {
        let next = cur + linebreak_at(b, cur);
        lemma_lines_from_keep(b, next, next, byte);
        let rest = lines_from(b, next, next);
        let all = seq![b.subrange(start, cur)].add(rest);
        assert forall|k: int, j: int| 0 <= k < all.len() && 0 <= j < all[k].len() implies #[trigger] all[k][j]
            != byte by {
            if k > 0 {
                assert(all[k] == rest[k - 1]);
            } else {
                assert(all[k][j] == b[start + j]);
            }
        }
        assert(lines_from(b, start, cur) == all);
    } else {
        lemma_lines_from_keep(b, start, cur + 1, byte);
        assert(lines_from(b, start, cur) == lines_from(b, start, cur + 1));
    }
}

/// Newline detection on a suffix agrees with detection on the whole text.
proof fn lemma_suffix_linebreak(b: Seq<u8>, s: int, k: int)
    requires
        0 <= s <= b.len(),
        0 <= k,
    ensures
        linebreak_at(b.subrange(s, b.len() as int), k) == linebreak_at(b, s + k),
{
}

/// The remaining lines of a text from a line start, given what a search for
/// the next newline sequence from that start found.
proof fn lemma_lines_from_step(b: Seq<u8>, start: int, found: Option<(int, int)>)
    requires
        0 <= start <= b.len(),
        match found {
            Some((off, span)) => first_linebreak_from(b, start, off) && span == linebreak_at(b, off),
            None => no_linebreak_from(b, start),
        },
    ensures
        match found {
            Some((off, span)) => lines_from(b, start, start) == seq![b.subrange(start, off)].add(
                lines_from(b, off + span, off + span),
            ),
            None => lines_from(b, start, start) == seq![b.subrange(start, b.len() as int)],
        },
{
    match found {
        Some((off, span)) => {
            lemma_lines_from_skip(b, start, start, off);
        },
        None => {
            lemma_lines_from_skip(b, start, start, b.len() as int);
        },
    }
}

/// Takes the line of `text` that starts at byte `start` (a character boundary),
/// returning it with the offset at which the following line starts, or `None`
/// for the offset when this is the last line.
fn take_line(text: &str, start: usize) -> (r: (&str, Option<usize>))
    requires
        start <= text.spec_bytes().len(),
        is_char_boundary(text.spec_bytes(), start as int),
    ensures
        lines_from(text.spec_bytes(), start as int, start as int).len() > 0,
        r.0.spec_bytes() == lines_from(text.spec_bytes(), start as int, start as int)[0],
        match r.1 {
            Some(next) => {
                &&& start < next <= text.spec_bytes().len()
                &&& is_char_boundary(text.spec_bytes(), next as int)
                &&& lines_from(text.spec_bytes(), start as int, start as int).drop_first()
                    == lines_from(text.spec_bytes(), next as int, next as int)
            },
            None => lines_from(text.spec_bytes(), start as int, start as int).len() == 1,
        },
{
    let ghost b = text.spec_bytes();
    let _total = text.as_bytes().len();
    let (_, rest) = text.split_at(start);
    proof {
        valid_utf8_split(b, start as int);
        assert(rest.spec_bytes() =~= b.subrange(start as int, b.len() as int));
    }
    let found = next_linebreak(rest, 0);
    match found {
        Some((off, span)) => {
            proof {
                let rb = rest.spec_bytes();
                assert forall|j: int| start <= j < start + off implies #[trigger] linebreak_at(b, j)
                    == 0 by {
                    lemma_suffix_linebreak(b, start as int, j - start);
                }
                lemma_suffix_linebreak(b, start as int, off as int);
                assert(first_linebreak_from(b, start as int, start + off));
                lemma_lines_from_step(b, start as int, Some((start + off, span as int)));
                lemma_linebreak_boundaries(b, start + off);
                is_char_boundary_iff_not_is_continuation_byte(rb, off as int);
                lemma_linebreak_boundaries(rb, off as int);
                assert(rb.subrange(0, off as int) =~= b.subrange(start as int, start + off));
                let tail = lines_from(b, start + off + span, start + off + span);
                assert((seq![b.subrange(start as int, start + off)].add(tail)).drop_first() =~= tail);
            }
            let (line, _) = rest.split_at(off);
            (line, Some(start + off + span))
        },
        None => {
            proof {
                assert forall|j: int| start <= j < b.len() implies #[trigger] linebreak_at(b, j)
                    == 0 by {
                    lemma_suffix_linebreak(b, start as int, j - start);
                }
                lemma_lines_from_step(b, start as int, None);
            }
            (rest, None)
        },
    }
}

/// An iterator-like segmentation of a string into lines, splitting at every
/// newline sequence of this module.
///
/// No line it yields contains a newline sequence; when the string ends with a
/// newline sequence, the final line is the empty string.
pub struct Lines<'a> {
    text: &'a str,
    /// Byte offset at which the next line starts.
    position: usize,
    /// Whether the last line has been yielded.
    done: bool,
}

impl<'a> Lines<'a> {
    #[verifier::type_invariant]
    spec fn inv(self) -> bool {
        self.done || is_char_boundary(self.text.spec_bytes(), self.position as int)
    }

    /// The text being segmented.
    pub closed spec fn text(self) -> &'a str {
        self.text
    }

    /// The lines still to be yielded, as byte sequences.
    pub closed spec fn remaining(self) -> Seq<Seq<u8>> {
        if self.done {
            Seq::empty()
        } else {
            lines_from(self.text.spec_bytes(), self.position as int, self.position as int)
        }
    }

    /// Starts segmenting `text`.
    pub fn new(text: &'a str) -> (r: Self)
        ensures
            r.text() == text,
            r.remaining() == split_lines(text.spec_bytes()),
    {
        Lines { text, position: 0, done: false }
    }

    /// Yields the next line, or `None` once every line has been yielded.
    pub fn next_line(&mut self) -> (r: Option<&'a str>)
        ensures
            final(self).text() == old(self).text(),
            match r {
                Some(line) => {
                    &&& old(self).remaining().len() > 0
                    &&& line.spec_bytes() == old(self).remaining()[0]
                    &&& final(self).remaining() == old(self).remaining().drop_first()
                },
                None => old(self).remaining().len() == 0 && final(self).remaining().len() == 0,
            },
    {
        proof {
            use_type_invariant(&*self);
        }
        if self.done {
            return None;
        }
        let (line, next) = take_line(self.text, self.position);
        match next {
            Some(p) => {
                self.position = p;
            },
            None => {
                self.done = true;
            },
        }
        Some(line)
    }

    /// Yields all remaining lines, in order.
    pub fn collect_lines(self) -> (r: Vec<&'a str>)
        ensures
            r@.len() == self.remaining().len(),
            forall|i: int| 0 <= i < r@.len() ==> #[trigger] r@[i].spec_bytes() == self.remaining()[i],
    {
        let mut it = self;
        let mut out: Vec<&'a str> = Vec::new();
        let ghost all = self.remaining();
        loop
            invariant
                out@.len() + it.remaining().len() == all.len(),
                it.remaining() == all.subrange(out@.len() as int, all.len() as int),
                forall|i: int| 0 <= i < out@.len() ==> #[trigger] out@[i].spec_bytes() == all[i],
            ensures
                out@.len() == all.len(),
                forall|i: int| 0 <= i < out@.len() ==> #[trigger] out@[i].spec_bytes() == all[i],
            decreases it.remaining().len(),
        {
            let ghost before = it.remaining();
            match it.next_line() {
                Some(line) => {
                    proof {
                        assert(before[0] == all[out@.len() as int]);
                        assert(before.drop_first() =~= all.subrange(out@.len() as int + 1, all.len() as int));
                    }
                    out.push(line);
                },
                None => {
                    break;
                },
            }
        }
        out
    }
}

/// The text of a borrowed or owned string.
pub(crate) fn cow_str<'b, 'a>(c: &'b Cow<'a, str>) -> (r: &'b str)
    ensures
        r@ == c@,
{
    match c {
        Cow::Borrowed(slice) => *slice,
        Cow::Owned(inner) => inner.as_str(),
    }
}

/// Segmentation of a borrowed or owned string into lines, splitting at every
/// newline sequence of this module. The lines are borrowed from a borrowed
/// string and owned copies for an owned one.
///
/// No line it yields contains a newline sequence; when the string ends with a
/// newline sequence, the final line is the empty string.
pub struct LinesCow<'a> {
    text: Cow<'a, str>,
    /// Byte offset at which the next line starts.
    position: usize,
    /// Whether the last line has been yielded.
    done: bool,
}

impl<'a> LinesCow<'a> {
    #[verifier::type_invariant]
    spec fn inv(self) -> bool {
        self.done || is_char_boundary(encode_utf8(self.text@), self.position as int)
    }

    /// The characters of the text being segmented.
    pub closed spec fn text(self) -> Seq<char> {
        self.text@
    }

    /// Whether the text is borrowed (else owned).
    pub closed spec fn borrowed(self) -> bool {
        self.text is Borrowed
    }

    /// The lines still to be yielded, as byte sequences.
    pub closed spec fn remaining(self) -> Seq<Seq<u8>> {
        if self.done {
            Seq::empty()
        } else {
            lines_from(encode_utf8(self.text@), self.position as int, self.position as int)
        }
    }

    /// Starts segmenting `text`, taking ownership of it.
    pub fn new(text: Cow<'a, str>) -> (r: Self)
        ensures
            r.text() == text@,
            r.borrowed() == (text is Borrowed),
            r.remaining() == split_lines(encode_utf8(text@)),
    {
        LinesCow { text, position: 0, done: false }
    }

    /// Yields the next line, or `None` once every line has been yielded. A
    /// line is borrowed from a borrowed text, and owned for an owned one.
    pub fn next_line(&mut self) -> (r: Option<Cow<'a, str>>)
        ensures
            final(self).text() == old(self).text(),
            final(self).borrowed() == old(self).borrowed(),
            match r {
                Some(line) => {
                    &&& old(self).remaining().len() > 0
                    &&& encode_utf8(line@) == old(self).remaining()[0]
                    &&& (line is Borrowed) == old(self).borrowed()
                    &&& final(self).remaining() == old(self).remaining().drop_first()
                },
                None => old(self).remaining().len() == 0 && final(self).remaining().len() == 0,
            },
    {
        proof {
            use_type_invariant(&*self);
        }
        if self.done {
            return None;
        }
        let position = self.position;
        let (line, next) = match &self.text {
            Cow::Borrowed(slice) => {
                let whole: &'a str = *slice;
                let (part, next) = take_line(whole, position);
                (Cow::Borrowed(part), next)
            },
            Cow::Owned(inner) => {
                let (part, next) = take_line(inner.as_str(), position);
                let copy: String = part.to_owned();
                (Cow::Owned(copy), next)
            },
        };
        match next {
            Some(p) => {
                self.position = p;
            },
            None => {
                self.done = true;
            },
        }
        Some(line)
    }
}

} // verus!
