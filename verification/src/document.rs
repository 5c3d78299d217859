//! The document representation: text fragments, break nodes, group policies,
//! sequences and the document tree, with the mathematical model that layout
//! is specified over.

use vstd::prelude::*;
use vstd::utf8::*;
use vstd::string::*;

use std::borrow::Cow;

use crate::handle::boxdoc::BoxDoc;
use crate::layout::{default_settings, layout_events, LayoutEngine, LayoutSettings};
use crate::renderer::{plaintext, render_model, EventModel, PlaintextRenderer, RenderError};
use crate::lines::{
    first_linebreak_from, free_of_linebreaks, lemma_linebreak_boundaries, lemma_lines_from_keep,
    lemma_lines_from_len, lemma_split_lines_free, linebreak_at, lines_from, next_linebreak,
    no_linebreak_from, split_lines, cow_str, LinesCow,
};

verus! {

broadcast use vstd::utf8::encode_utf8_valid_utf8, vstd::utf8::encode_utf8_decode_utf8,
    vstd::utf8::is_char_boundary_start_end_of_seq;

/// The display width of a string in terminal columns, as computed by
/// `unicode_width::UnicodeWidthStr::width` (Unicode East Asian Width rules).
pub uninterp spec fn display_width(s: Seq<char>) -> usize;

/// Every character is printable ASCII (space to tilde).
pub open spec fn printable_ascii(s: Seq<char>) -> bool {
    forall|i: int| 0 <= i < s.len() ==> 0x20 <= #[trigger] (s[i] as u32) <= 0x7e
}

/// Calls `unicode_width::UnicodeWidthStr::width`. The contract names the
/// result: the width of `s` is `display_width` of its characters, a function
/// of those characters alone. Of its value it states only what the crate's
/// fold over the characters plainly gives: each printable ASCII character
/// counts one column (so the empty string has width zero). The rules for
/// other characters (East Asian Width, emoji and script ligatures) are not
/// restated.
#[verifier::external_body]
fn unicode_width_of(s: &str) -> (w: usize)
    ensures
        w == display_width(s@),
        s@.len() == 0 ==> w == 0,
        printable_ascii(s@) ==> w == s@.len(),
{
    unicode_width::UnicodeWidthStr::width(s)
}

/// The byte offset `i` holds the first tab (0x09) of `b`.
pub open spec fn first_tab(b: Seq<u8>, i: int) -> bool {
    &&& 0 <= i < b.len()
    &&& b[i] == 0x09u8
    &&& forall|j: int| 0 <= j < i ==> #[trigger] b[j] != 0x09u8
}

/// `b` holds no tab.
pub open spec fn free_of_tabs(b: Seq<u8>) -> bool {
    forall|j: int| 0 <= j < b.len() ==> #[trigger] b[j] != 0x09u8
}

/// Searches the UTF-8 encoding of `s` for its first tab.
fn find_tab(s: &str) -> (r: Option<usize>)
    ensures
        match r {
            Some(i) => first_tab(s.spec_bytes(), i as int),
            None => free_of_tabs(s.spec_bytes()),
        },
{
    let b = s.as_bytes();
    let n = b.len();
    let mut i: usize = 0;
    while i < n
        invariant
            n == b@.len(),
            b@ == s.spec_bytes(),
            i <= n,
            forall|j: int| 0 <= j < i ==> #[trigger] b@[j] != 0x09u8,
        decreases n - i,
    {
        if b[i] == 0x09 {
            return Some(i);
        }
        i = i + 1;
    }
    None
}

/// A flat text fragment: a payload that holds neither newline sequences nor
/// tabs, together with its display width. The payload is kept as it was
/// given: borrowed or owned.
#[derive(Debug, PartialEq, Eq, Hash)]
pub struct FlatFragment<'s> {
    inner: Cow<'s, str>,
    width: usize,
}

/// The error for a payload that holds a tab: its byte offset and the payload.
#[derive(Debug, Clone, PartialEq, Eq, Hash)]
pub enum ContainsTab {
    ContainsTab(usize, String),
}

/// The error for a payload that cannot be a flat fragment.
#[derive(Debug, Clone, PartialEq, Eq, Hash)]
pub enum FragmentError {
    /// The newline sequence found, its byte offset, and the payload.
    ContainsLinebreak(String, usize, String),
    ContainsTab(ContainsTab),
}

impl<'s> Clone for FlatFragment<'s> {
    fn clone(&self) -> (r: Self)
        ensures
            r == *self,
    {
        proof {
            use_type_invariant(self);
        }
        let inner = match &self.inner {
            Cow::Borrowed(text) => Cow::Borrowed(*text),
            Cow::Owned(text) => Cow::Owned(text.clone()),
        };
        FlatFragment { inner, width: self.width }
    }
}

/// Whether two strings hold the same characters.
fn same_str(a: &str, b: &str) -> (r: bool)
    ensures
        r == (a@ == b@),
{
    a.to_owned() == b.to_owned()
}

impl<'s> FlatFragment<'s> {
    #[verifier::type_invariant]
    spec fn inv(self) -> bool {
        &&& free_of_linebreaks(encode_utf8(self.inner@))
        &&& free_of_tabs(encode_utf8(self.inner@))
        &&& self.width == display_width(self.inner@)
    }

    /// The characters of the payload.
    pub closed spec fn view_chars(self) -> Seq<char> {
        self.inner@
    }

    /// The payload, borrowed or owned as it was given.
    pub closed spec fn payload(self) -> Cow<'s, str> {
        self.inner
    }

    /// The payload.
    pub fn inner(&self) -> (r: &str)
        ensures
            r@ == self.view_chars(),
    {
        cow_str(&self.inner)
    }

    /// Consumes the fragment and returns its payload as it was given: a
    /// borrowed payload is handed back borrowed, with no copy.
    pub fn into_inner(self) -> (r: Cow<'s, str>)
        ensures
            r == self.payload(),
            r@ == self.view_chars(),
    {
        self.inner
    }

    /// Whether the two fragments hold the same text.
    pub fn same_text(&self, other: &FlatFragment) -> (r: bool)
        ensures
            r == (self.view_chars() == other.view_chars()),
    {
        same_str(cow_str(&self.inner), cow_str(&other.inner))
    }

    /// The display width of the payload.
    pub fn unicode_width(&self) -> (r: usize)
        ensures
            r == display_width(self.view_chars()),
    {
        proof {
            use_type_invariant(self);
        }
        self.width
    }

    /// Builds a flat fragment from a payload.
    ///
    /// Fails with `ContainsTab` when the payload holds a tab (reporting the
    /// first), else with `ContainsLinebreak` when it holds a newline sequence
    /// (reporting the first).
    pub fn new(payload: Cow<'s, str>) -> (r: Result<FlatFragment<'s>, FragmentError>)
        ensures
            match r {
                Ok(f) => {
                    &&& f.payload() == payload
                    &&& f.view_chars() == payload@
                    &&& free_of_tabs(encode_utf8(payload@))
                    &&& free_of_linebreaks(encode_utf8(payload@))
                },
                Err(e) => flat_fragment_outcome(payload@, Err(e)),
            },
    {
        let text: &str = cow_str(&payload);
        if let Some(index) = find_tab(text) {
            return Err(FragmentError::ContainsTab(ContainsTab::ContainsTab(index, text.to_owned())));
        }
        if let Some((index, span)) = next_linebreak(text, 0) {
            let ghost b = text.spec_bytes();
            proof {
                lemma_linebreak_boundaries(b, index as int);
            }
            let (_, rest) = text.split_at(index);
            proof {
                assert(rest.spec_bytes() =~= b.subrange(index as int, b.len() as int));
                valid_utf8_split(b, index as int);
                crate::lines::lemma_linebreak_boundaries(rest.spec_bytes(), 0);
                assert(linebreak_at(rest.spec_bytes(), 0) == span);
            }
            let (seq, _) = rest.split_at(span);
            proof {
                assert(seq.spec_bytes() =~= b.subrange(index as int, index + span));
            }
            return Err(FragmentError::ContainsLinebreak(seq.to_owned(), index, text.to_owned()));
        }
        let width = unicode_width_of(text);
        Ok(FlatFragment { inner: payload, width })
    }
}

/// What `FlatFragment::new` returns for `payload`.
pub open spec fn flat_fragment_outcome<'s>(payload: Seq<char>, r: Result<FlatFragment<'s>, FragmentError>) -> bool {
    let b = encode_utf8(payload);
    match r {
        Ok(f) => {
            &&& f.view_chars() == payload
            &&& free_of_tabs(b)
            &&& free_of_linebreaks(b)
        },
        Err(FragmentError::ContainsTab(ContainsTab::ContainsTab(i, s))) => {
            &&& first_tab(b, i as int)
            &&& s@ == payload
        },
        Err(FragmentError::ContainsLinebreak(seq, i, s)) => {
            &&& free_of_tabs(b)
            &&& first_linebreak_from(b, 0, i as int)
            &&& encode_utf8(seq@) == b.subrange(i as int, i + linebreak_at(b, i as int))
            &&& s@ == payload
        },
    }
}

/// A piece of a break node's broken payload: flat text or a newline.
pub enum Piece {
    Text(Seq<char>),
    Linebreak,
}

/// A text fragment, which is either a continuous flat fragment or a newline.
/// Used in the broken payload of `Break` nodes.
#[derive(Debug, PartialEq, Eq, Hash)]
pub enum TextFragment<'s> {
    Text(FlatFragment<'s>),
    Linebreak,
}

impl<'s> Clone for TextFragment<'s> {
    fn clone(&self) -> (r: Self)
        ensures
            r == *self,
    {
        match self {
            TextFragment::Text(f) => TextFragment::Text(f.clone()),
            TextFragment::Linebreak => TextFragment::Linebreak,
        }
    }
}

impl<'s> TextFragment<'s> {
    /// The model of this fragment.
    pub open spec fn piece(self) -> Piece {
        match self {
            TextFragment::Text(f) => Piece::Text(f.view_chars()),
            TextFragment::Linebreak => Piece::Linebreak,
        }
    }
}

/// The models of a sequence of text fragments.
pub open spec fn pieces_of<'s>(v: Seq<TextFragment<'s>>) -> Seq<Piece> {
    v.map_values(|f: TextFragment| f.piece())
}

/// The fragments of a text split into `lines`: the first line, then for each
/// further line a newline followed by the line when its display width is
/// not zero.
pub open spec fn text_pieces(lines: Seq<Seq<u8>>) -> Seq<Piece>
    decreases lines.len(),
{
    if lines.len() == 0 {
        seq![]
    } else if lines.len() == 1 {
        seq![Piece::Text(decode_utf8(lines[0]))]
    } else {
        let l = decode_utf8(lines.last());
        text_pieces(lines.drop_last()).add(seq![Piece::Linebreak]).add(
            if display_width(l) > 0 {
                seq![Piece::Text(l)]
            } else {
                seq![]
            },
        )
    }
}

/// The pieces of a text without tabs.
pub open spec fn text_to_pieces(text: Seq<char>) -> Seq<Piece> {
    text_pieces(split_lines(encode_utf8(text)))
}

/// The pieces hold a newline exactly when the text holds a newline sequence.
pub proof fn lemma_text_pieces_linebreak(lines: Seq<Seq<u8>>)
    ensures
        (exists|i: int| 0 <= i < text_pieces(lines).len() && text_pieces(lines)[i] == Piece::Linebreak)
            <==> lines.len() > 1,
    decreases lines.len(),
{
    if lines.len() > 1 {
        let prev = text_pieces(lines.drop_last());
        let l = decode_utf8(lines.last());
        let all = prev.add(seq![Piece::Linebreak]).add(
            if display_width(l) > 0 {
                seq![Piece::Text(l)]
            } else {
                seq![]
            },
        );
        assert(all[prev.len() as int] == Piece::Linebreak);
    }
}

impl<'s> TextFragment<'s> {
    /// Segments a text along its newline sequences into fragments: the first
    /// line, then for each further line a newline followed by the line when
    /// its display width is not zero. The lines of a borrowed text are
    /// borrowed from it, those of an owned one owned.
    ///
    /// Fails when the text holds a tab, reporting the first.
    pub fn from_text(payload: Cow<'s, str>) -> (r: Result<Vec<TextFragment<'s>>, ContainsTab>)
        ensures
            match r {
                Ok(v) => {
                    &&& free_of_tabs(encode_utf8(payload@))
                    &&& pieces_of(v@) == text_to_pieces(payload@)
                    &&& forall|i: int| 0 <= i < v@.len() ==> (#[trigger] v@[i] matches TextFragment::Text(f) ==> (
                        f.payload() is Borrowed) == (payload is Borrowed))
                },
                Err(ContainsTab::ContainsTab(i, s)) => first_tab(encode_utf8(payload@), i as int) && s@ == payload@,
            },
    {
        if let Some(index) = find_tab(cow_str(&payload)) {
            return Err(ContainsTab::ContainsTab(index, cow_str(&payload).to_owned()));
        }
        let ghost b = encode_utf8(payload@);
        let ghost borrowed = payload is Borrowed;
        let ghost all = split_lines(b);
        proof {
            lemma_split_lines_free(b);
            lemma_lines_from_len(b, 0, 0);
            lemma_lines_from_keep(b, 0, 0, 0x09u8);
        }
        let mut lines = LinesCow::new(payload);
        let mut result: Vec<TextFragment<'s>> = Vec::new();
        let first = lines.next_line();
        let first = match first {
            Some(line) => line,
            None => {
                proof {
                    assert(false);
                }
                return Ok(result);
            },
        };
        let ghost k: int = 1;
        proof {
            assert(free_of_tabs(encode_utf8(first@))) by {
                assert(encode_utf8(first@) == all[0]);
            }
            assert(free_of_linebreaks(encode_utf8(first@)));
        }
        let ghost first_view = first@;
        proof {
            assert((first is Borrowed) == borrowed);
        }
        let f0 = FlatFragment::new(first);
        match f0 {
            Ok(f) => {
                result.push(TextFragment::Text(f));
            },
            Err(_) => {
                proof {
                    assert(false);
                }
                return Ok(result);
            },
        }
        proof {
            assert(all.take(1).drop_last().len() == 0);
            assert(decode_utf8(all[0]) == first_view);
            assert(pieces_of(result@) =~= text_pieces(all.take(1)));
        }
        loop
            invariant
                1 <= k <= all.len(),
                lines.remaining() == all.subrange(k, all.len() as int),
                lines.borrowed() == borrowed,
                pieces_of(result@) == text_pieces(all.take(k)),
                forall|i: int| 0 <= i < result@.len() ==> (#[trigger] result@[i] matches TextFragment::Text(f) ==> (
                    f.payload() is Borrowed) == borrowed),
                forall|i: int| 0 <= i < all.len() ==> free_of_linebreaks(#[trigger] all[i]),
                forall|i: int, j: int| 0 <= i < all.len() && 0 <= j < all[i].len() ==> #[trigger] all[i][j] != 0x09u8,
            ensures
                k == all.len(),
                pieces_of(result@) == text_pieces(all.take(k)),
                forall|i: int| 0 <= i < result@.len() ==> (#[trigger] result@[i] matches TextFragment::Text(f) ==> (
                    f.payload() is Borrowed) == borrowed),
            decreases all.len() - k,
        {
            let ghost before = lines.remaining();
            match lines.next_line() {
                Some(line) => {
                    proof {
                        assert(before[0] == all[k]);
                        assert(encode_utf8(line@) == all[k]);
                        assert(free_of_tabs(encode_utf8(line@)));
                        assert(decode_utf8(all[k]) == line@);
                        assert(all.take(k + 1).drop_last() =~= all.take(k));
                        assert(all.take(k + 1).last() == all[k]);
                    }
                    let ghost prev = result@;
                    result.push(TextFragment::Linebreak);
                    let ghost line_view = line@;
                    let fr = FlatFragment::new(line);
                    match fr {
                        Ok(f) => {
                            let w = f.unicode_width();
                            if w > 0 {
                                result.push(TextFragment::Text(f));
                                proof {
                                    assert(pieces_of(result@) =~= pieces_of(prev).add(seq![Piece::Linebreak]).add(seq![Piece::Text(line_view)]));
                                }
                            } else {
                                proof {
                                    assert(pieces_of(result@) =~= pieces_of(prev).add(seq![Piece::Linebreak]).add(seq![]));
                                }
                            }
                        },
                        Err(_) => {
                            proof {
                                assert(false);
                            }
                        },
                    }
                    proof {
                        k = k + 1;
                        assert(before.drop_first() =~= all.subrange(k, all.len() as int));
                    }
                },
                None => {
                    break;
                },
            }
        }
        proof {
            assert(all.take(k) =~= all);
        }
        Ok(result)
    }
}

/// The error for an invalid `Break` node.
#[derive(Debug, Clone, PartialEq, Eq, Hash)]
pub enum BreakNodeInvalid {
    FragmentError(FragmentError),
    /// The broken payload holds no newline sequence.
    BrokenPayloadHasNoNewline,
}

/// A break node, rendered as its flat fragment when laid out flat and as its
/// broken fragments when laid out broken. The broken fragments always hold at
/// least one newline.
#[derive(Debug, PartialEq, Eq, Hash)]
pub struct Break<'s> {
    flat: FlatFragment<'s>,
    broken: Vec<TextFragment<'s>>,
}

impl<'s> Clone for Break<'s> {
    fn clone(&self) -> (r: Self)
        ensures
            r.flat_chars() == self.flat_chars(),
            r.broken_pieces() == self.broken_pieces(),
    {
        proof {
            use_type_invariant(self);
        }
        let mut broken: Vec<TextFragment<'s>> = Vec::new();
        let n = self.broken.len();
        let mut i: usize = 0;
        while i < n
            invariant
                n == self.broken@.len(),
                i <= n,
                broken@ == self.broken@.take(i as int),
            decreases n - i,
        {
            broken.push(self.broken[i].clone());
            i = i + 1;
            proof {
                assert(broken@ =~= self.broken@.take(i as int));
            }
        }
        proof {
            assert(broken@ =~= self.broken@);
        }
        Break { flat: self.flat.clone(), broken }
    }
}

/// The pieces hold at least one newline.
pub open spec fn has_linebreak_piece(p: Seq<Piece>) -> bool {
    exists|i: int| 0 <= i < p.len() && p[i] == Piece::Linebreak
}

/// The payloads that make a break node: a flat one without tabs or newline
/// sequences, and a broken one without tabs but with a newline sequence.
pub open spec fn break_accepts(flat: Seq<char>, broken: Seq<char>) -> bool {
    &&& free_of_tabs(encode_utf8(flat))
    &&& free_of_linebreaks(encode_utf8(flat))
    &&& free_of_tabs(encode_utf8(broken))
    &&& !free_of_linebreaks(encode_utf8(broken))
}

/// The error that building a break node from the payloads gives: the flat
/// payload's fragment error first, then a tab in the broken payload, then the
/// lack of a newline sequence in it.
pub open spec fn break_refusal(flat: Seq<char>, broken: Seq<char>, e: BreakNodeInvalid) -> bool {
    let fb = encode_utf8(flat);
    let bb = encode_utf8(broken);
    match e {
        BreakNodeInvalid::FragmentError(FragmentError::ContainsTab(ContainsTab::ContainsTab(i, s))) =>
            flat_fragment_outcome(flat, Err(FragmentError::ContainsTab(ContainsTab::ContainsTab(i, s))))
            || (free_of_tabs(fb) && free_of_linebreaks(fb) && first_tab(bb, i as int) && s@ == broken),
        BreakNodeInvalid::FragmentError(fe) => flat_fragment_outcome(flat, Err(fe)),
        BreakNodeInvalid::BrokenPayloadHasNoNewline => {
            &&& free_of_tabs(fb)
            &&& free_of_linebreaks(fb)
            &&& free_of_tabs(bb)
            &&& free_of_linebreaks(bb)
        },
    }
}

impl<'s> Break<'s> {
    #[verifier::type_invariant]
    spec fn inv(self) -> bool {
        has_linebreak_piece(pieces_of(self.broken@))
    }

    /// The characters of the flat payload.
    pub closed spec fn flat_chars(self) -> Seq<char> {
        self.flat.view_chars()
    }

    /// The models of the broken payload.
    pub closed spec fn broken_pieces(self) -> Seq<Piece> {
        pieces_of(self.broken@)
    }

    /// The flat fragment.
    pub fn flat(&self) -> (r: &FlatFragment<'s>)
        ensures
            r.view_chars() == self.flat_chars(),
    {
        &self.flat
    }

    /// The broken fragments.
    pub fn broken(&self) -> (r: &Vec<TextFragment<'s>>)
        ensures
            pieces_of(r@) == self.broken_pieces(),
            has_linebreak_piece(self.broken_pieces()),
    {
        proof {
            use_type_invariant(self);
        }
        &self.broken
    }

    /// Whether the two break nodes hold the same payloads.
    pub fn same_payloads(&self, other: &Break) -> (r: bool)
        ensures
            r == (self.flat_chars() == other.flat_chars() && self.broken_pieces() == other.broken_pieces()),
    {
        if !self.flat.same_text(&other.flat) {
            return false;
        }
        let n = self.broken.len();
        if n != other.broken.len() {
            proof {
                assert(pieces_of(self.broken@).len() != pieces_of(other.broken@).len());
            }
            return false;
        }
        let mut i: usize = 0;
        while i < n
            invariant
                n == self.broken@.len(),
                n == other.broken@.len(),
                i <= n,
                forall|j: int| 0 <= j < i ==> pieces_of(self.broken@)[j] == pieces_of(other.broken@)[j],
            decreases n - i,
        {
            let same = match (&self.broken[i], &other.broken[i]) {
                (TextFragment::Text(a), TextFragment::Text(b)) => a.same_text(b),
                (TextFragment::Linebreak, TextFragment::Linebreak) => true,
                _ => false,
            };
            if !same {
                proof {
                    assert(pieces_of(self.broken@)[i as int] != pieces_of(other.broken@)[i as int]);
                }
                return false;
            }
            i = i + 1;
        }
        proof {
            assert(pieces_of(self.broken@) =~= pieces_of(other.broken@));
        }
        true
    }

    /// Consumes the node and returns its components.
    pub fn into_inner(self) -> (r: (FlatFragment<'s>, Vec<TextFragment<'s>>))
        ensures
            r.0.view_chars() == self.flat_chars(),
            pieces_of(r.1@) == self.broken_pieces(),
    {
        proof {
            use_type_invariant(&self);
        }
        (self.flat, self.broken)
    }

    /// Builds a break node from its flat and broken payloads.
    ///
    /// Fails when the flat payload is not a valid flat fragment, else when the
    /// broken payload holds a tab, else when the broken payload holds no
    /// newline sequence.
    #[verifier::loop_isolation(false)]
    pub fn new(flat: Cow<'s, str>, broken: Cow<'s, str>) -> (r: Result<Break<'s>, BreakNodeInvalid>)
        ensures
            match r {
                Ok(b) => {
                    &&& break_accepts(flat@, broken@)
                    &&& b.flat_chars() == flat@
                    &&& b.broken_pieces() == text_to_pieces(broken@)
                },
                Err(e) => break_refusal(flat@, broken@, e),
            },
    {
        let unbroken = match FlatFragment::new(flat) {
            Ok(f) => f,
            Err(e) => {
                return Err(BreakNodeInvalid::FragmentError(e));
            },
        };
        let ghost b = encode_utf8(broken@);
        let pieces = match TextFragment::from_text(broken) {
            Ok(v) => v,
            Err(e) => {
                return Err(BreakNodeInvalid::FragmentError(FragmentError::ContainsTab(e)));
            },
        };
        proof {
            lemma_text_pieces_linebreak(split_lines(b));
            lemma_lines_from_len(b, 0, 0);
        }
        let n = pieces.len();
        let mut i: usize = 0;
        while i < n
            invariant
                n == pieces@.len(),
                i <= n,
                forall|j: int| 0 <= j < i ==> pieces_of(pieces@)[j] != Piece::Linebreak,
            decreases n - i,
        {
            match &pieces[i] {
                TextFragment::Linebreak => {
                    proof {
                        assert(pieces_of(pieces@)[i as int] == Piece::Linebreak);
                        assert(split_lines(b).len() > 1);
                        if free_of_linebreaks(b) {
                            assert(crate::lines::no_linebreak_from(b, 0));
                        }
                    }
                    return Ok(Break { flat: unbroken, broken: pieces });
                },
                TextFragment::Text(_) => {},
            }
            i = i + 1;
        }
        proof {
            assert(!has_linebreak_piece(pieces_of(pieces@)));
            assert(split_lines(b).len() == 1);
            assert(lines_from(b, 0, 0).len() == 1);
            assert(crate::lines::no_linebreak_from(b, 0));
            assert forall|j: int| 0 <= j < b.len() implies #[trigger] linebreak_at(b, j) == 0 by {
                assert(0 <= j);
            }
        }
        Err(BreakNodeInvalid::BrokenPayloadHasNoNewline)
    }
}

/// The policy by which a `Group` node takes its layout decision.
#[derive(Debug, Clone, Copy, Default, PartialEq, Eq, Hash)]
pub enum GroupPolicy {
    /// Flat when the flat length is within the minimal width (relaxed
    /// constraint only) or does not exceed the space left on the current
    /// line (the maximal width less the column at which the group starts);
    /// broken otherwise.
    #[default]
    Normal,
    /// Flat unless the child must break; when flat, enclosed `Normal` groups
    /// are laid out flat too.
    FlatIfPossible,
    /// Always broken; inner groups decide for themselves.
    ForceBreak,
}

/// Whether the contents of a group can be laid out flat.
#[derive(Debug, Clone, Copy, PartialEq, Eq, Hash)]
pub enum BreakStatus {
    /// The contents hold a hard linebreak, or a forced group whose layout
    /// mode is observable: they must be laid out broken.
    MustBreak,
    /// The display width of the contents when laid out flat.
    FlatLength(usize),
}

/// The model of a break status: `None` for must-break, else the flat length.
pub type StatusModel = Option<nat>;

/// Sum of two break statuses: must-break absorbs, flat lengths add.
pub open spec fn add_status(a: StatusModel, b: StatusModel) -> StatusModel {
    match (a, b) {
        (Some(x), Some(y)) => Some(x + y),
        _ => None,
    }
}

/// The status can be represented with a `usize` flat length.
pub open spec fn status_fits(a: StatusModel) -> bool {
    match a {
        Some(x) => x <= usize::MAX,
        None => true,
    }
}

impl BreakStatus {
    /// The model of this status.
    pub open spec fn model(self) -> StatusModel {
        match self {
            BreakStatus::MustBreak => None,
            BreakStatus::FlatLength(n) => Some(n as nat),
        }
    }

    /// Combines two statuses: any must-break gives must-break, two flat
    /// lengths give their sum.
    pub fn add(self, rhs: Self) -> (r: Self)
        requires
            status_fits(add_status(self.model(), rhs.model())),
        ensures
            r.model() == add_status(self.model(), rhs.model()),
    {
        match (self, rhs) {
            (BreakStatus::FlatLength(length), BreakStatus::FlatLength(rhs_length)) => {
                BreakStatus::FlatLength(length + rhs_length)
            },
            _ => BreakStatus::MustBreak,
        }
    }
}

/// The mathematical model of a document.
pub enum DocTree<A> {
    Nil,
    /// Flat text, by its characters.
    Text(Seq<char>),
    /// A break node: flat characters and broken pieces.
    Break(Seq<char>, Seq<Piece>),
    HardLinebreak,
    Group(GroupPolicy, Box<DocTree<A>>),
    Sequence(Seq<DocTree<A>>),
    Nest(nat, Box<DocTree<A>>),
    Annotation(A, Box<DocTree<A>>),
}

/// The display width of a flat string.
pub open spec fn width_of(s: Seq<char>) -> nat {
    display_width(s) as nat
}

/// Whether a change of layout mode is observable in a document: whether it
/// holds a break node that its enclosing decision governs. A group takes its
/// own decision, except that a `FlatIfPossible` policy overrides an inner
/// `Normal` group. Sequences answer for the `Normal` policy.
pub open spec fn observable<A>(t: DocTree<A>, policy: GroupPolicy) -> bool
    decreases t,
{
    match t {
        DocTree::Break(_, _) => true,
        DocTree::Nil => false,
        DocTree::Text(_) => false,
        DocTree::HardLinebreak => false,
        DocTree::Group(inner, c) => {
            if policy == GroupPolicy::FlatIfPossible && inner == GroupPolicy::Normal {
                observable(*c, GroupPolicy::FlatIfPossible)
            } else {
                false
            }
        },
        DocTree::Nest(_, c) => observable(*c, policy),
        DocTree::Annotation(_, c) => observable(*c, policy),
        DocTree::Sequence(cs) => any_observable(cs),
    }
}

/// Some child is observable under the `Normal` policy.
pub open spec fn any_observable<A>(cs: Seq<DocTree<A>>) -> bool
    decreases cs,
{
    if cs.len() == 0 {
        false
    } else {
        any_observable(cs.subrange(0, cs.len() - 1)) || observable(cs[cs.len() - 1], GroupPolicy::Normal)
    }
}

/// The break status of a document: must-break when it holds a hard linebreak
/// or a `ForceBreak` group with an observable child; otherwise the display
/// width of its flat layout, in which nests add no indentation.
pub open spec fn flat_len<A>(t: DocTree<A>) -> StatusModel
    decreases t,
{
    match t {
        DocTree::Nil => Some(0),
        DocTree::Text(s) => Some(width_of(s)),
        DocTree::Break(f, _) => Some(width_of(f)),
        DocTree::HardLinebreak => None,
        DocTree::Group(p, c) => {
            if p == GroupPolicy::ForceBreak && observable(*c, GroupPolicy::ForceBreak) {
                None
            } else {
                flat_len(*c)
            }
        },
        DocTree::Sequence(cs) => flat_len_seq(cs),
        DocTree::Nest(_, c) => flat_len(*c),
        DocTree::Annotation(_, c) => flat_len(*c),
    }
}

/// Whether a document is a leaf: nil, flat text, a break or a hard
/// linebreak.
pub open spec fn is_leaf_tree<A>(t: DocTree<A>) -> bool {
    t is Nil || t is Text || t is Break || t is HardLinebreak
}

/// The sum of the break statuses of a sequence of children.
pub open spec fn flat_len_seq<A>(cs: Seq<DocTree<A>>) -> StatusModel
    decreases cs,
{
    if cs.len() == 0 {
        Some(0)
    } else {
        add_status(flat_len_seq(cs.subrange(0, cs.len() - 1)), flat_len(cs[cs.len() - 1]))
    }
}

/// Evaluating the break status of a document stays within `usize`.
pub open spec fn status_ok<A>(t: DocTree<A>) -> bool
    decreases t,
{
    match t {
        DocTree::Group(p, c) => {
            if p == GroupPolicy::ForceBreak && observable(*c, GroupPolicy::ForceBreak) {
                true
            } else {
                status_ok(*c)
            }
        },
        DocTree::Nest(_, c) => status_ok(*c),
        DocTree::Annotation(_, c) => status_ok(*c),
        _ => true,
    }
}

/// Evaluating the break status of any document stays within `usize`: the
/// sums are those of sequences, computed at their construction.
pub proof fn lemma_status_ok<A>(t: DocTree<A>)
    ensures
        status_ok(t),
    decreases t,
{
    match t {
        DocTree::Group(p, c) => lemma_status_ok(*c),
        DocTree::Nest(_, c) => lemma_status_ok(*c),
        DocTree::Annotation(_, c) => lemma_status_ok(*c),
        _ => {},
    }
}

/// A sequence of child documents, with its break status and observability
/// computed once, at construction.
#[derive(Debug, PartialEq, Eq, Hash)]
pub struct Sequence<A = ()> {
    children: Vec<BoxDoc<A>>,
    status: BreakStatus,
    layout_mode_observable: bool,
}

/// A document node. Its children are `BoxDoc` handles.
#[derive(Debug, PartialEq, Eq, Hash)]
pub enum Document<A = ()> {
    /// Displays as nothing.
    Nil,
    /// Text that is always displayed flat.
    Text(FlatFragment<'static>),
    /// Displayed by its flat or broken payload, following the layout mode.
    Break(Break<'static>),
    /// A newline that always appears.
    HardLinebreak,
    /// A layout decision point.
    Group(GroupPolicy, BoxDoc<A>),
    /// Children displayed one after another.
    Sequence(Sequence<A>),
    /// Adds indentation to the child's newlines when laid out broken.
    Nest(usize, BoxDoc<A>),
    /// An annotation over the child, passed on to renderers.
    Annotation(Box<A>, BoxDoc<A>),
}

/// The model of a document handle.
pub open spec fn doc_tree<A>(b: BoxDoc<A>) -> DocTree<A>
    decreases b,
{
    node_tree(*b.0)
}

/// The model of a document node.
pub open spec fn node_tree<A>(d: Document<A>) -> DocTree<A>
    decreases d,
{
    match d {
        Document::Nil => DocTree::Nil,
        Document::Text(f) => DocTree::Text(f.view_chars()),
        Document::Break(b) => DocTree::Break(b.flat_chars(), b.broken_pieces()),
        Document::HardLinebreak => DocTree::HardLinebreak,
        Document::Group(p, c) => DocTree::Group(p, Box::new(doc_tree(c))),
        Document::Sequence(s) => DocTree::Sequence(s.children_trees()),
        Document::Nest(k, c) => DocTree::Nest(k as nat, Box::new(doc_tree(c))),
        Document::Annotation(a, c) => DocTree::Annotation(*a, Box::new(doc_tree(c))),
    }
}

/// The models of a sequence of document handles.
pub open spec fn trees_of<A>(cs: Seq<BoxDoc<A>>) -> Seq<DocTree<A>>
    decreases cs,
{
    if cs.len() == 0 {
        seq![]
    } else {
        trees_of(cs.subrange(0, cs.len() - 1)).push(doc_tree(cs[cs.len() - 1]))
    }
}

/// `trees_of` maps each handle to its model.
pub broadcast proof fn lemma_trees_of<A>(cs: Seq<BoxDoc<A>>)
    ensures
        #[trigger] trees_of(cs).len() == cs.len(),
        forall|i: int| 0 <= i < cs.len() ==> #[trigger] trees_of(cs)[i] == doc_tree(cs[i]),
    decreases cs.len(),
{
    if cs.len() > 0 {
        lemma_trees_of(cs.subrange(0, cs.len() - 1));
    }
}

/// `c` is a copy of `t`: the same document, except that each annotation may
/// be a clone of the original one (by the annotation type's own `Clone`).
pub open spec fn cloned_tree<A: Clone>(t: DocTree<A>, c: DocTree<A>) -> bool
    decreases t,
{
    match t {
        DocTree::Group(p, x) => c matches DocTree::Group(q, y) && p == q && cloned_tree(*x, *y),
        DocTree::Sequence(xs) => c matches DocTree::Sequence(ys) && cloned_seq(xs, ys),
        DocTree::Nest(k, x) => c matches DocTree::Nest(j, y) && k == j && cloned_tree(*x, *y),
        DocTree::Annotation(a, x) => c matches DocTree::Annotation(b, y) && (b == a || cloned::<A>(a, b)) && cloned_tree(*x, *y),
        _ => c == t,
    }
}

/// Each document of `ys` is a copy of the one of `xs` at its index.
pub open spec fn cloned_seq<A: Clone>(xs: Seq<DocTree<A>>, ys: Seq<DocTree<A>>) -> bool
    decreases xs,
{
    if xs.len() == 0 {
        ys.len() == 0
    } else {
        &&& ys.len() == xs.len()
        &&& cloned_seq(xs.subrange(0, xs.len() - 1), ys.subrange(0, ys.len() - 1))
        &&& cloned_tree(xs[xs.len() - 1], ys[ys.len() - 1])
    }
}

/// A copy has the break status, observability and status computation of
/// its original: annotations play no part in them.
pub proof fn lemma_cloned_tree<A: Clone>(t: DocTree<A>, c: DocTree<A>)
    requires
        cloned_tree(t, c),
    ensures
        flat_len(c) == flat_len(t),
        forall|p: GroupPolicy| #[trigger] observable(c, p) == observable(t, p),
        status_ok(c) == status_ok(t),
    decreases t,
{
    match t {
        DocTree::Group(p, x) => {
            let y = c->Group_1;
            lemma_cloned_tree(*x, *y);
            assert(observable(*y, GroupPolicy::FlatIfPossible) == observable(*x, GroupPolicy::FlatIfPossible));
            assert(observable(*y, GroupPolicy::ForceBreak) == observable(*x, GroupPolicy::ForceBreak));
            assert forall|q: GroupPolicy| #[trigger] observable(c, q) == observable(t, q) by {}
        },
        DocTree::Sequence(xs) => {
            lemma_cloned_seq(xs, c->Sequence_0);
            assert forall|q: GroupPolicy| #[trigger] observable(c, q) == observable(t, q) by {}
        },
        DocTree::Nest(k, x) => {
            lemma_cloned_tree(*x, *c->Nest_1);
            assert forall|q: GroupPolicy| #[trigger] observable(c, q) == observable(t, q) by {
                assert(observable(*c->Nest_1, q) == observable(*x, q));
            }
        },
        DocTree::Annotation(a, x) => {
            lemma_cloned_tree(*x, *c->Annotation_1);
            assert forall|q: GroupPolicy| #[trigger] observable(c, q) == observable(t, q) by {
                assert(observable(*c->Annotation_1, q) == observable(*x, q));
            }
        },
        _ => {},
    }
}

/// Copies of a sequence of documents have its break status, observability
/// and status computation.
pub proof fn lemma_cloned_seq<A: Clone>(xs: Seq<DocTree<A>>, ys: Seq<DocTree<A>>)
    requires
        cloned_seq(xs, ys),
    ensures
        ys.len() == xs.len(),
        flat_len_seq(ys) == flat_len_seq(xs),
        any_observable(ys) == any_observable(xs),
        seq_status_ok(ys) == seq_status_ok(xs),
    decreases xs,
{
    if xs.len() > 0 {
        let xd = xs.subrange(0, xs.len() - 1);
        let yd = ys.subrange(0, ys.len() - 1);
        lemma_cloned_seq(xd, yd);
        lemma_cloned_tree(xs[xs.len() - 1], ys[ys.len() - 1]);
        assert(observable(ys[ys.len() - 1], GroupPolicy::Normal) == observable(xs[xs.len() - 1], GroupPolicy::Normal));
        assert(xs.drop_last() =~= xd);
        assert(ys.drop_last() =~= yd);
    }
}

/// The document of flat text: nil when its display width is zero.
pub open spec fn flat_tree<A>(x: Seq<char>) -> DocTree<A> {
    if width_of(x) == 0 {
        DocTree::Nil
    } else {
        DocTree::Text(x)
    }
}

/// The document of a piece of literal text.
pub open spec fn piece_tree<A>(p: Piece) -> DocTree<A> {
    match p {
        Piece::Text(x) => flat_tree(x),
        Piece::Linebreak => DocTree::HardLinebreak,
    }
}

/// The documents of the pieces of literal text.
pub open spec fn text_trees<A>(ps: Seq<Piece>) -> Seq<DocTree<A>> {
    ps.map_values(|p: Piece| piece_tree::<A>(p))
}

/// The documents with the separator between each two.
pub open spec fn intersperse<A>(xs: Seq<DocTree<A>>, sep: DocTree<A>) -> Seq<DocTree<A>> {
    if xs.len() == 0 {
        seq![]
    } else {
        Seq::new((2 * xs.len() - 1) as nat, |i: int| if i % 2 == 0 { xs[i / 2] } else { sep })
    }
}

/// `ys` is `xs` with a copy of the separator between each two.
pub open spec fn interspersed_copies<A: Clone>(xs: Seq<DocTree<A>>, sep: DocTree<A>, ys: Seq<DocTree<A>>) -> bool {
    &&& ys.len() == intersperse(xs, sep).len()
    &&& forall|i: int| 0 <= i < ys.len() ==> (if i % 2 == 0 {
        #[trigger] ys[i] == xs[i / 2]
    } else {
        cloned_tree(sep, ys[i])
    })
}

/// Two sequences of documents whose documents have the same break statuses
/// and status computations, one for one, have the same of both.
pub proof fn lemma_seq_status_equiv<A>(xs: Seq<DocTree<A>>, ys: Seq<DocTree<A>>)
    requires
        xs.len() == ys.len(),
        forall|i: int| 0 <= i < xs.len() ==> flat_len(#[trigger] xs[i]) == flat_len(ys[i]) && status_ok(xs[i]) == status_ok(ys[i]),
    ensures
        flat_len_seq(xs) == flat_len_seq(ys),
        seq_status_ok(xs) == seq_status_ok(ys),
    decreases xs.len(),
{
    if xs.len() > 0 {
        let xd = xs.subrange(0, xs.len() - 1);
        let yd = ys.subrange(0, ys.len() - 1);
        assert forall|i: int| 0 <= i < xd.len() implies flat_len(#[trigger] xd[i]) == flat_len(yd[i]) && status_ok(xd[i]) == status_ok(yd[i]) by {
            assert(xd[i] == xs[i]);
            assert(yd[i] == ys[i]);
        }
        lemma_seq_status_equiv(xd, yd);
        assert(xs.drop_last() =~= xd);
        assert(ys.drop_last() =~= yd);
        assert(flat_len(xs[xs.len() - 1]) == flat_len(ys[ys.len() - 1]));
    }
}

/// The vector in reverse order.
pub(crate) fn reverse_vec<T>(v: Vec<T>) -> (r: Vec<T>)
    ensures
        r@.len() == v@.len(),
        forall|k: int| 0 <= k < v@.len() ==> #[trigger] r@[k] == v@[v@.len() - 1 - k],
{
    let ghost orig = v@;
    let n = v.len();
    let mut v = v;
    let mut r: Vec<T> = Vec::new();
    proof {
        assert(orig.take(n as int) =~= orig);
    }
    while v.len() > 0
        invariant
            n == orig.len(),
            v@.len() + r@.len() == n,
            v@ == orig.take(v@.len() as int),
            forall|k: int| 0 <= k < r@.len() ==> #[trigger] r@[k] == orig[n - 1 - k],
        decreases v@.len(),
    {
        let c = v.pop().unwrap();
        proof {
            assert(c == orig[v@.len() as int]);
            assert(v@ =~= orig.take(v@.len() as int));
        }
        r.push(c);
    }
    r
}

/// The children of a sequence without its `Nil` children.
pub open spec fn non_nil<A>(cs: Seq<DocTree<A>>) -> Seq<DocTree<A>>
    decreases cs.len(),
{
    if cs.len() == 0 {
        seq![]
    } else if cs.last() is Nil {
        non_nil(cs.drop_last())
    } else {
        non_nil(cs.drop_last()).push(cs.last())
    }
}

/// The document that the `sequence` smart constructor makes of children:
/// `Nil` when no child is other than `Nil`, the child itself when one is,
/// else the sequence of the children other than `Nil`.
pub open spec fn sequence_tree<A>(cs: Seq<DocTree<A>>) -> DocTree<A> {
    let kept = non_nil(cs);
    if kept.len() == 0 {
        DocTree::Nil
    } else if kept.len() == 1 {
        kept[0]
    } else {
        DocTree::Sequence(kept)
    }
}

/// Computing the break status of a sequence of children stays within
/// `usize`: each child's own, and the running sum.
pub open spec fn seq_status_ok<A>(cs: Seq<DocTree<A>>) -> bool
    decreases cs.len(),
{
    cs.len() == 0 || (seq_status_ok(cs.drop_last()) && status_ok(cs.last()) && status_fits(
        flat_len_seq(cs),
    ))
}

/// Every prefix of children whose status computation stays within `usize`
/// has one that does too.
pub proof fn lemma_seq_status_ok_take<A>(cs: Seq<DocTree<A>>, k: int)
    requires
        seq_status_ok(cs),
        0 <= k <= cs.len(),
    ensures
        seq_status_ok(cs.take(k)),
    decreases cs.len(),
{
    if k == cs.len() {
        assert(cs.take(k) =~= cs);
    } else {
        assert(cs.drop_last().take(k) =~= cs.take(k));
        lemma_seq_status_ok_take(cs.drop_last(), k);
    }
}

/// Dropping the `Nil` children changes neither the break status, nor the
/// observability, nor the status computation staying within `usize`.
pub proof fn lemma_non_nil<A>(cs: Seq<DocTree<A>>)
    ensures
        flat_len_seq(non_nil(cs)) == flat_len_seq(cs),
        any_observable(non_nil(cs)) == any_observable(cs),
        seq_status_ok(cs) ==> seq_status_ok(non_nil(cs)),
        forall|i: int| 0 <= i < non_nil(cs).len() ==> !(#[trigger] non_nil(cs)[i] is Nil),
        non_nil(cs).len() <= cs.len(),
    decreases cs.len(),
{
    if cs.len() > 0 {
        let r = non_nil(cs.drop_last());
        lemma_non_nil(cs.drop_last());
        let d = cs.drop_last();
        let x = cs.last();
        assert(d =~= cs.subrange(0, cs.len() - 1));
        assert(x == cs[cs.len() - 1]);
        assert(flat_len_seq(cs) == add_status(flat_len_seq(d), flat_len(x)));
        assert(any_observable(cs) == (any_observable(d) || observable(x, GroupPolicy::Normal)));
        if x is Nil {
            assert(non_nil(cs) == r);
            assert(flat_len(x) == Some(0nat));
            assert(!observable(x, GroupPolicy::Normal));
            match flat_len_seq(d) {
                Some(n) => assert(add_status(Some(n), Some(0nat)) == Some(n)),
                None => {},
            }
        } else {
            assert(non_nil(cs) == r.push(x));
            assert(r.push(x).subrange(0, r.len() as int) =~= r);
            assert(r.push(x).drop_last() =~= r);
            assert(flat_len_seq(r.push(x)) == add_status(flat_len_seq(r), flat_len(x)));
            assert(any_observable(r.push(x)) == (any_observable(r) || observable(x, GroupPolicy::Normal)));
        }
    }
}

/// The models of a sequence of handles with one more at the end.
pub proof fn lemma_trees_of_push<A>(cs: Seq<BoxDoc<A>>, c: BoxDoc<A>)
    ensures
        trees_of(cs.push(c)) == trees_of(cs).push(doc_tree(c)),
{
    assert(cs.push(c).subrange(0, cs.len() as int) =~= cs);
}

impl<A> Sequence<A> {
    #[verifier::type_invariant]
    spec fn inv(self) -> bool {
        &&& seq_status_ok(trees_of(self.children@))
        &&& self.status.model() == flat_len_seq(trees_of(self.children@))
        &&& self.layout_mode_observable == any_observable(trees_of(self.children@))
    }

    /// The models of the children.
    pub closed spec fn children_trees(self) -> Seq<DocTree<A>>
        decreases self,
    {
        trees_of(self.children@)
    }

    /// The children, in order.
    pub closed spec fn children_handles(self) -> Seq<BoxDoc<A>> {
        self.children@
    }

    /// Builds a sequence of the children, computing its break status and
    /// observability once.
    pub fn new(children: Vec<BoxDoc<A>>) -> (r: Sequence<A>)
        requires
            seq_status_ok(trees_of(children@)),
        ensures
            r.children_handles() == children@,
            r.children_trees() == trees_of(children@),
    {
        let ghost cs = trees_of(children@);
        let mut status = BreakStatus::FlatLength(0);
        let mut observable = false;
        let n = children.len();
        let mut i: usize = 0;
        proof {
            lemma_trees_of(children@);
            assert(cs.take(0) =~= Seq::<DocTree<A>>::empty());
        }
        while i < n
            invariant
                n == children@.len(),
                cs == trees_of(children@),
                cs.len() == n,
                i <= n,
                seq_status_ok(cs),
                status.model() == flat_len_seq(cs.take(i as int)),
                observable == any_observable(cs.take(i as int)),
            decreases n - i,
        {
            proof {
                lemma_trees_of(children@);
                lemma_seq_status_ok_take(cs, i + 1);
                assert(cs.take(i + 1).drop_last() =~= cs.take(i as int));
                assert(cs.take(i + 1).last() == cs[i as int]);
            }
            let child: &Document<A> = &*children[i].0;
            status = status.add(child.break_status());
            observable = observable || child.layout_mode_observable(GroupPolicy::Normal);
            i = i + 1;
        }
        proof {
            assert(cs.take(n as int) =~= cs);
        }
        Sequence { children, status, layout_mode_observable: observable }
    }

    /// The children, as they were given.
    pub fn children(&self) -> (r: &Vec<BoxDoc<A>>)
        ensures
            r@ == self.children_handles(),
            trees_of(r@) == self.children_trees(),
    {
        &self.children
    }

    /// Consumes the sequence, returning its children.
    pub fn into_children(self) -> (r: Vec<BoxDoc<A>>)
        ensures
            r@ == self.children_handles(),
            trees_of(r@) == self.children_trees(),
    {
        self.children
    }

    /// The break status computed at construction.
    pub fn status(&self) -> (r: BreakStatus)
        ensures
            r.model() == flat_len_seq(self.children_trees()),
            seq_status_ok(self.children_trees()),
    {
        proof {
            use_type_invariant(self);
        }
        self.status
    }

    /// The observability computed at construction.
    pub fn layout_mode_observable(&self) -> (r: bool)
        ensures
            r == any_observable(self.children_trees()),
    {
        proof {
            use_type_invariant(self);
        }
        self.layout_mode_observable
    }
}

impl<A> Document<A> {
    /// Whether a change of layout mode is observable in this document under
    /// the given enclosing policy.
    pub fn layout_mode_observable(&self, policy: GroupPolicy) -> (r: bool)
        ensures
            r == observable(node_tree(*self), policy),
        decreases *self,
    {
        match self {
            Document::Break(_) => true,
            Document::Nil => false,
            Document::Text(_) => false,
            Document::HardLinebreak => false,
            Document::Group(inner, child) => {
                if matches!(policy, GroupPolicy::FlatIfPossible) && matches!(inner, GroupPolicy::Normal) {
                    child.0.layout_mode_observable(GroupPolicy::FlatIfPossible)
                } else {
                    false
                }
            },
            Document::Nest(_, child) => child.0.layout_mode_observable(policy),
            Document::Annotation(_, child) => child.0.layout_mode_observable(policy),
            Document::Sequence(sequence) => sequence.layout_mode_observable(),
        }
    }

    /// The break status of this document.
    pub fn break_status(&self) -> (r: BreakStatus)
        ensures
            r.model() == flat_len(node_tree(*self)),
        decreases *self,
    {
        match self {
            Document::Nil => BreakStatus::FlatLength(0),
            Document::Text(fragment) => BreakStatus::FlatLength(fragment.unicode_width()),
            Document::Break(inner) => BreakStatus::FlatLength(inner.flat().unicode_width()),
            Document::HardLinebreak => BreakStatus::MustBreak,
            Document::Group(policy, child) => {
                if matches!(policy, GroupPolicy::ForceBreak) && child.0.layout_mode_observable(
                    GroupPolicy::ForceBreak,
                ) {
                    BreakStatus::MustBreak
                } else {
                    child.0.break_status()
                }
            },
            Document::Sequence(sequence) => sequence.status(),
            Document::Nest(_, child) => child.0.break_status(),
            Document::Annotation(_, child) => child.0.break_status(),
        }
    }

    /// Lays out the document with the default settings.
    pub fn as_layout<'doc>(&'doc self) -> (r: LayoutEngine<'doc, A>)
        ensures
            r.wf(),
            r.expected() == layout_events(node_tree(*self), default_settings()),
            r.produced() == Seq::<EventModel<A>>::empty(),
    {
        LayoutEngine::new(self)
    }

    /// Lays out the document with the given settings.
    pub fn as_layout_with<'doc>(&'doc self, settings: LayoutSettings) -> (r: LayoutEngine<'doc, A>)
        ensures
            r.wf(),
            r.expected() == layout_events(node_tree(*self), settings),
            r.produced() == Seq::<EventModel<A>>::empty(),
    {
        LayoutEngine::with_settings(self, settings)
    }

    /// Renders the document as plain text with the default settings.
    pub fn to_plaintext(&self) -> (r: Result<String, RenderError>)
        ensures
            render_model(r) == plaintext(layout_events(node_tree(*self), default_settings())),
    {
        self.to_plaintext_with(LayoutSettings::default())
    }

    /// Renders the document as plain text with the given settings: the text
    /// of its layout, or the first layout error.
    pub fn to_plaintext_with(&self, settings: LayoutSettings) -> (r: Result<String, RenderError>)
        ensures
            render_model(r) == plaintext(layout_events(node_tree(*self), settings)),
    {
        let layout = self.as_layout_with(settings);
        proof {
            assert(layout.expected().skip(0) =~= layout.expected());
        }
        PlaintextRenderer::render_to_string(layout)
    }

    /// The nil node.
    pub fn nil() -> (r: BoxDoc<A>)
        ensures
            doc_tree(r) == DocTree::<A>::Nil,
    {
        BoxDoc(Box::new(Document::Nil))
    }

    /// Literal text, split along its newline sequences: a `Text` node for
    /// each line of non-zero width and a `HardLinebreak` between lines, made
    /// a sequence.
    ///
    /// Fails when the text holds a tab, reporting the first.
    pub fn from_text(payload: &str) -> (r: Result<BoxDoc<A>, ContainsTab>)
        requires
            free_of_tabs(payload.spec_bytes()) ==> seq_status_ok(text_trees::<A>(text_to_pieces(payload@))),
        ensures
            match r {
                Ok(d) => {
                    &&& free_of_tabs(payload.spec_bytes())
                    &&& doc_tree(d) == sequence_tree(text_trees::<A>(text_to_pieces(payload@)))
                },
                Err(ContainsTab::ContainsTab(i, s)) => first_tab(payload.spec_bytes(), i as int) && s@ == payload@,
            },
    {
        let fragments = match TextFragment::from_text(Cow::Owned(payload.to_owned())) {
            Ok(v) => v,
            Err(e) => {
                return Err(e);
            },
        };
        let children = Self::text_children(&fragments);
        Ok(Self::sequence(children))
    }

    /// The documents of the fragments of literal text: flat text of
    /// non-zero width, nil for the others, and hard linebreaks.
    fn text_children(fragments: &Vec<TextFragment<'static>>) -> (r: Vec<BoxDoc<A>>)
        ensures
            trees_of(r@) == text_trees::<A>(pieces_of(fragments@)),
    {
        let ghost ps = pieces_of(fragments@);
        let mut children: Vec<BoxDoc<A>> = Vec::new();
        let n = fragments.len();
        let mut i: usize = 0;
        while i < n
            invariant
                n == fragments@.len(),
                ps == pieces_of(fragments@),
                i <= n,
                trees_of(children@) == text_trees::<A>(ps.take(i as int)),
            decreases n - i,
        {
            let child: BoxDoc<A> = match &fragments[i] {
                TextFragment::Text(fragment) => {
                    if fragment.unicode_width() != 0 {
                        BoxDoc(Box::new(Document::Text(fragment.clone())))
                    } else {
                        Document::nil()
                    }
                },
                TextFragment::Linebreak => BoxDoc(Box::new(Document::HardLinebreak)),
            };
            proof {
                lemma_trees_of_push(children@, child);
                assert(ps[i as int] == fragments@[i as int].piece());
                assert(doc_tree(child) == piece_tree::<A>(ps[i as int]));
                assert(text_trees::<A>(ps.take(i + 1)) =~= text_trees::<A>(ps.take(i as int)).push(piece_tree::<A>(ps[i as int])));
            }
            children.push(child);
            i = i + 1;
        }
        proof {
            assert(ps.take(n as int) =~= ps);
        }
        children
    }

    /// Literal text, as `from_text`, when the break status of the sequence
    /// of its pieces can be computed within `usize`; `None` when it cannot.
    ///
    /// Fails when the text holds a tab, reporting the first.
    pub fn try_from_text(payload: &str) -> (r: Option<Result<BoxDoc<A>, ContainsTab>>)
        ensures
            r is None <==> (free_of_tabs(payload.spec_bytes()) && !seq_status_ok(
                text_trees::<A>(text_to_pieces(payload@)),
            )),
            r matches Some(Ok(d)) ==> {
                &&& free_of_tabs(payload.spec_bytes())
                &&& doc_tree(d) == sequence_tree(text_trees::<A>(text_to_pieces(payload@)))
            },
            r matches Some(Err(ContainsTab::ContainsTab(i, s))) ==> first_tab(payload.spec_bytes(), i as int)
                && s@ == payload@,
    {
        let fragments = match TextFragment::from_text(Cow::Owned(payload.to_owned())) {
            Ok(v) => v,
            Err(e) => {
                proof {
                    let ContainsTab::ContainsTab(i, _) = e;
                    assert(payload.spec_bytes()[i as int] == 0x09u8);
                }
                return Some(Err(e));
            },
        };
        let children = Self::text_children(&fragments);
        if Self::sequence_fits(&children) {
            Some(Ok(Self::sequence(children)))
        } else {
            None
        }
    }

    /// Flat text; a payload of display width zero (the empty one among
    /// them) gives the nil node.
    ///
    /// Fails when the payload is not a valid flat fragment.
    pub fn flat_text(payload: &str) -> (r: Result<BoxDoc<A>, FragmentError>)
        ensures
            match r {
                Ok(d) => {
                    &&& free_of_tabs(payload.spec_bytes())
                    &&& free_of_linebreaks(payload.spec_bytes())
                    &&& doc_tree(d) == flat_tree::<A>(payload@)
                },
                Err(e) => flat_fragment_outcome(payload@, Err(e)),
            },
    {
        let flat = match FlatFragment::new(Cow::Owned(payload.to_owned())) {
            Ok(f) => f,
            Err(e) => {
                return Err(e);
            },
        };
        if flat.unicode_width() == 0 {
            Ok(Document::nil())
        } else {
            Ok(BoxDoc(Box::new(Document::Text(flat))))
        }
    }

    /// A break node, displayed by its flat payload when laid out flat and by
    /// its broken payload when laid out broken.
    ///
    /// Fails as `Break::new` does.
    pub fn breaker(flat: &str, broken: &str) -> (r: Result<BoxDoc<A>, BreakNodeInvalid>)
        ensures
            match r {
                Ok(d) => {
                    &&& break_accepts(flat@, broken@)
                    &&& doc_tree(d) == DocTree::<A>::Break(flat@, text_to_pieces(broken@))
                },
                Err(e) => break_refusal(flat@, broken@, e),
            },
    {
        match Break::new(Cow::Owned(flat.to_owned()), Cow::Owned(broken.to_owned())) {
            Ok(b) => Ok(BoxDoc(Box::new(Document::Break(b)))),
            Err(e) => Err(e),
        }
    }

    /// A hard linebreak.
    pub fn hard_linebreak() -> (r: BoxDoc<A>)
        ensures
            doc_tree(r) == DocTree::<A>::HardLinebreak,
    {
        BoxDoc(Box::new(Document::HardLinebreak))
    }

    /// A group with the given policy.
    pub fn group(child: BoxDoc<A>, policy: GroupPolicy) -> (r: BoxDoc<A>)
        ensures
            doc_tree(r) == DocTree::Group(policy, Box::new(doc_tree(child))),
    {
        BoxDoc(Box::new(Document::Group(policy, child)))
    }

    /// A group, with the given policy, over exactly what `sequence` makes of
    /// the children.
    pub fn grouped_sequence(children: Vec<BoxDoc<A>>, policy: GroupPolicy) -> (r: BoxDoc<A>)
        requires
            seq_status_ok(trees_of(children@)),
        ensures
            doc_tree(r) == DocTree::Group(policy, Box::new(sequence_tree(trees_of(children@)))),
    {
        let sequence = Self::sequence(children);
        Self::group(sequence, policy)
    }

    /// The children without the nil ones, in order.
    fn drop_nil(children: Vec<BoxDoc<A>>) -> (r: Vec<BoxDoc<A>>)
        ensures
            trees_of(r@) == non_nil(trees_of(children@)),
    {
        let ghost orig = children@;
        let ghost cs = trees_of(orig);
        let n = children.len();
        let mut reversed = reverse_vec(children);
        let mut kept: Vec<BoxDoc<A>> = Vec::new();
        proof {
            lemma_trees_of(orig);
            assert(cs.take(0) =~= Seq::<DocTree<A>>::empty());
            assert(trees_of(kept@) == Seq::<DocTree<A>>::empty());
        }
        while reversed.len() > 0
            invariant
                n == orig.len(),
                cs == trees_of(orig),
                cs.len() == n,
                reversed@.len() <= n,
                forall|k: int| 0 <= k < reversed@.len() ==> #[trigger] reversed@[k] == orig[n - 1 - k],
                trees_of(kept@) == non_nil(cs.take(n - reversed@.len())),
            decreases reversed@.len(),
        {
            let ghost j = n - reversed@.len();
            let c = reversed.pop().unwrap();
            proof {
                lemma_trees_of(orig);
                assert(c == orig[j]);
                assert(doc_tree(c) == cs[j]);
                assert(cs.take(j + 1).drop_last() =~= cs.take(j));
                assert(cs.take(j + 1).last() == cs[j]);
                lemma_trees_of_push(kept@, c);
            }
            if !matches!(*c.0, Document::Nil) {
                kept.push(c);
            }
        }
        proof {
            assert(cs.take(n as int) =~= cs);
        }
        kept
    }

    /// Whether the break status of a sequence of the children can be
    /// computed within `usize`: whether the flat lengths of the children add
    /// up, child after child, within `usize`.
    pub fn sequence_fits(children: &Vec<BoxDoc<A>>) -> (r: bool)
        ensures
            r == seq_status_ok(trees_of(children@)),
    {
        let ghost cs = trees_of(children@);
        let n = children.len();
        let mut status = BreakStatus::FlatLength(0);
        let mut i: usize = 0;
        proof {
            lemma_trees_of(children@);
            assert(cs.take(0) =~= Seq::<DocTree<A>>::empty());
        }
        while i < n
            invariant
                n == children@.len(),
                cs == trees_of(children@),
                cs.len() == n,
                i <= n,
                seq_status_ok(cs.take(i as int)),
                status.model() == flat_len_seq(cs.take(i as int)),
            decreases n - i,
        {
            proof {
                lemma_trees_of(children@);
                lemma_status_ok(cs[i as int]);
                assert(cs.take(i + 1).drop_last() =~= cs.take(i as int));
                assert(cs.take(i + 1).last() == cs[i as int]);
                assert(doc_tree(children@[i as int]) == cs[i as int]);
            }
            let child = children[i].break_status();
            match (status, child) {
                (BreakStatus::FlatLength(a), BreakStatus::FlatLength(b)) => {
                    match a.checked_add(b) {
                        Some(sum) => {
                            status = BreakStatus::FlatLength(sum);
                        },
                        None => {
                            proof {
                                assert(!status_fits(flat_len_seq(cs.take(i + 1))));
                                assert(!seq_status_ok(cs.take(i + 1)));
                                if seq_status_ok(cs) {
                                    lemma_seq_status_ok_take(cs, i + 1);
                                }
                            }
                            return false;
                        },
                    }
                },
                _ => {
                    status = BreakStatus::MustBreak;
                },
            }
            i = i + 1;
        }
        proof {
            assert(cs.take(n as int) =~= cs);
        }
        true
    }

    /// A sequence of the children, as `sequence`, when its break status can
    /// be computed within `usize`; `None` when it cannot.
    pub fn try_sequence(children: Vec<BoxDoc<A>>) -> (r: Option<BoxDoc<A>>)
        ensures
            r is Some <==> seq_status_ok(trees_of(children@)),
            r matches Some(d) ==> doc_tree(d) == sequence_tree(trees_of(children@)),
    {
        if Self::sequence_fits(&children) {
            Some(Self::sequence(children))
        } else {
            None
        }
    }

    /// A sequence of the children: `Nil` children are dropped; with none
    /// left, the nil node; with one, that child.
    pub fn sequence(children: Vec<BoxDoc<A>>) -> (r: BoxDoc<A>)
        requires
            seq_status_ok(trees_of(children@)),
        ensures
            doc_tree(r) == sequence_tree(trees_of(children@)),
    {
        let ghost cs = trees_of(children@);
        let mut kept = Self::drop_nil(children);
        proof {
            lemma_non_nil(cs);
            lemma_trees_of(kept@);
        }
        let k = kept.len();
        if k == 0 {
            Document::nil()
        } else if k == 1 {
            kept.pop().unwrap()
        } else {
            BoxDoc(Box::new(Document::Sequence(Sequence::new(kept))))
        }
    }

    /// A sequence of the children, other than the nil ones, with a copy of
    /// the separator between each two; with a nil separator, the sequence of
    /// the children.
    pub fn sequence_intersperse_with(children: Vec<BoxDoc<A>>, separator: BoxDoc<A>) -> (r: BoxDoc<A>) where
        A: Clone,
        requires
            doc_tree(separator) is Nil ==> seq_status_ok(trees_of(children@)),
            !(doc_tree(separator) is Nil) ==> seq_status_ok(
                intersperse(non_nil(trees_of(children@)), doc_tree(separator)),
            ),
        ensures
            doc_tree(separator) is Nil ==> doc_tree(r) == sequence_tree(trees_of(children@)),
            !(doc_tree(separator) is Nil) ==> exists|ys: Seq<DocTree<A>>|
                interspersed_copies(non_nil(trees_of(children@)), doc_tree(separator), ys)
                && doc_tree(r) == sequence_tree(ys),
    {
        if matches!(*separator.0, Document::Nil) {
            return Self::sequence(children);
        }
        let out = Self::interspersed(children, &separator);
        Self::sequence(out)
    }

    /// A sequence of the children, as `sequence_intersperse_with`, when its
    /// break status can be computed within `usize`; `None` when it cannot.
    pub fn try_sequence_intersperse_with(children: Vec<BoxDoc<A>>, separator: BoxDoc<A>) -> (r: Option<BoxDoc<A>>) where
        A: Clone,
        ensures
            doc_tree(separator) is Nil ==> (r is Some <==> seq_status_ok(trees_of(children@))),
            !(doc_tree(separator) is Nil) ==> (r is Some <==> seq_status_ok(
                intersperse(non_nil(trees_of(children@)), doc_tree(separator)),
            )),
            doc_tree(separator) is Nil ==> (r matches Some(d) ==> doc_tree(d) == sequence_tree(
                trees_of(children@),
            )),
            !(doc_tree(separator) is Nil) ==> (r matches Some(d) ==> exists|ys: Seq<DocTree<A>>|
                interspersed_copies(non_nil(trees_of(children@)), doc_tree(separator), ys)
                && doc_tree(d) == sequence_tree(ys)),
    {
        if matches!(*separator.0, Document::Nil) {
            return Self::try_sequence(children);
        }
        let out = Self::interspersed(children, &separator);
        if Self::sequence_fits(&out) {
            Some(Self::sequence(out))
        } else {
            None
        }
    }

    /// The children other than the nil ones, with a copy of the separator
    /// between each two.
    fn interspersed(children: Vec<BoxDoc<A>>, separator: &BoxDoc<A>) -> (out: Vec<BoxDoc<A>>) where
        A: Clone,
        ensures
            interspersed_copies(non_nil(trees_of(children@)), doc_tree(*separator), trees_of(out@)),
            seq_status_ok(trees_of(out@)) == seq_status_ok(
                intersperse(non_nil(trees_of(children@)), doc_tree(*separator)),
            ),
    {
        let ghost sep = doc_tree(*separator);
        let ghost sep = doc_tree(*separator);
        let kept = Self::drop_nil(children);
        let ghost ks = trees_of(kept@);
        let n = kept.len();
        let mut reversed = reverse_vec(kept);
        let mut out: Vec<BoxDoc<A>> = Vec::new();
        proof {
            lemma_trees_of(kept@);
        }
        while reversed.len() > 0
            invariant
                n == ks.len(),
                reversed@.len() <= n,
                sep == doc_tree(*separator),
                forall|k: int| 0 <= k < reversed@.len() ==> doc_tree(#[trigger] reversed@[k]) == ks[n - 1 - k],
                out@.len() == (if reversed@.len() == n { 0 } else { 2 * (n - reversed@.len()) - 1 }),
                forall|i: int| 0 <= i < out@.len() ==> (if i % 2 == 0 {
                    doc_tree(#[trigger] out@[i]) == ks[i / 2]
                } else {
                    cloned_tree(sep, doc_tree(out@[i]))
                }),
            decreases reversed@.len(),
        {
            let ghost j = n - reversed@.len();
            let ghost before = out@;
            let c = reversed.pop().unwrap();
            if out.len() == 0 {
                out.push(c);
            } else {
                let copy = separator.clone();
                out.push(copy);
                out.push(c);
                proof {
                    assert(out@[before.len() as int] == copy);
                }
            }
            proof {
                assert forall|i: int| 0 <= i < out@.len() implies (if i % 2 == 0 {
                    doc_tree(#[trigger] out@[i]) == ks[i / 2]
                } else {
                    cloned_tree(sep, doc_tree(out@[i]))
                }) by {
                    if i < before.len() {
                        assert(out@[i] == before[i]);
                    }
                }
            }
        }
        let ghost ys = trees_of(out@);
        proof {
            lemma_trees_of(out@);
            let xs = intersperse(ks, sep);
            assert(interspersed_copies(ks, sep, ys)) by {
                assert forall|i: int| 0 <= i < ys.len() implies (if i % 2 == 0 {
                    #[trigger] ys[i] == ks[i / 2]
                } else {
                    cloned_tree(sep, ys[i])
                }) by {
                    assert(ys[i] == doc_tree(out@[i]));
                }
            }
            assert forall|i: int| 0 <= i < xs.len() implies flat_len(#[trigger] xs[i]) == flat_len(ys[i]) && status_ok(xs[i]) == status_ok(ys[i]) by {
                assert(ys[i] == doc_tree(out@[i]));
                if i % 2 != 0 {
                    lemma_cloned_tree(sep, ys[i]);
                }
            }
            lemma_seq_status_equiv(xs, ys);
        }
        proof {
            lemma_non_nil(trees_of(children@));
        }
        out
    }

    /// A nest of the given indentation around the child; a nil child gives
    /// the nil node.
    pub fn nest(indentation: usize, inner: BoxDoc<A>) -> (r: BoxDoc<A>)
        ensures
            doc_tree(r) == (if doc_tree(inner) is Nil {
                DocTree::<A>::Nil
            } else {
                DocTree::Nest(indentation as nat, Box::new(doc_tree(inner)))
            }),
    {
        if matches!(*inner.0, Document::Nil) {
            Document::nil()
        } else {
            BoxDoc(Box::new(Document::Nest(indentation, inner)))
        }
    }

    /// An annotation over the child.
    pub fn annotation(annotation: A, inner: BoxDoc<A>) -> (r: BoxDoc<A>)
        ensures
            doc_tree(r) == DocTree::Annotation(annotation, Box::new(doc_tree(inner))),
    {
        BoxDoc(Box::new(Document::Annotation(Box::new(annotation), inner)))
    }
}

impl<A: Clone> Sequence<A> {
    /// A copy of the sequence, with its children copied.
    fn clone_children(&self) -> (r: Sequence<A>)
        ensures
            cloned_seq(self.children_trees(), r.children_trees()),
        decreases *self,
    {
        proof {
            use_type_invariant(self);
        }
        let ghost xs = trees_of(self.children@);
        let mut children: Vec<BoxDoc<A>> = Vec::new();
        let n = self.children.len();
        let mut i: usize = 0;
        proof {
            lemma_trees_of(self.children@);
            assert(xs.take(0) =~= Seq::<DocTree<A>>::empty());
        }
        while i < n
            invariant
                n == self.children@.len(),
                xs == trees_of(self.children@),
                xs.len() == n,
                i <= n,
                cloned_seq(xs.take(i as int), trees_of(children@)),
            decreases n - i,
        {
            let child = &self.children[i];
            proof {
                assert(decreases_to!(*self => self.children));
                assert(decreases_to!(self.children => self.children@));
                assert(decreases_to!(self.children@ => self.children@[i as int]));
            }
            let copy = BoxDoc(Box::new(child.0.clone_node()));
            proof {
                lemma_trees_of(self.children@);
                lemma_trees_of_push(children@, copy);
                let ys = trees_of(children@);
                assert(xs.take(i + 1).subrange(0, i as int) =~= xs.take(i as int));
                assert(ys.push(doc_tree(copy)).subrange(0, i as int) =~= ys);
            }
            children.push(copy);
            i = i + 1;
        }
        proof {
            assert(xs.take(n as int) =~= xs);
            lemma_cloned_seq(xs, trees_of(children@));
        }
        Sequence { children, status: self.status, layout_mode_observable: self.layout_mode_observable }
    }
}

impl<A: Clone> Document<A> {
    /// A copy of the document, with annotations cloned.
    fn clone_node(&self) -> (r: Document<A>)
        ensures
            cloned_tree(node_tree(*self), node_tree(r)),
        decreases *self,
    {
        match self {
            Document::Nil => Document::Nil,
            Document::Text(fragment) => Document::Text(fragment.clone()),
            Document::Break(breaker) => Document::Break(breaker.clone()),
            Document::HardLinebreak => Document::HardLinebreak,
            Document::Group(policy, child) => Document::Group(*policy, BoxDoc(Box::new(child.0.clone_node()))),
            Document::Sequence(sequence) => Document::Sequence(sequence.clone_children()),
            Document::Nest(indentation, child) => Document::Nest(*indentation, BoxDoc(Box::new(child.0.clone_node()))),
            Document::Annotation(annotation, child) => {
                let a: A = (**annotation).clone();
                Document::Annotation(Box::new(a), BoxDoc(Box::new(child.0.clone_node())))
            },
        }
    }
}

impl<A: Clone> Clone for BoxDoc<A> {
    /// A copy of the document, with annotations cloned.
    fn clone(&self) -> (r: Self)
        ensures
            cloned_tree(doc_tree(*self), doc_tree(r)),
    {
        BoxDoc(Box::new(self.0.clone_node()))
    }
}

} // verus!
