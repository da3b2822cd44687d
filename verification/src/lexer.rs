//! The mark-extend-commit layer: a pure position/length state machine
//! ([`Cursor`]), the materialized result of a commit ([`Selection`]), and the
//! scanner that couples a cursor with a character-level lookahead source
//! ([`Scanner`]).

use crate::iter::lex_chars;
use crate::iter::pop_scalars;
use crate::iter::SourceChars;
use vstd::prelude::*;
use vstd::string::StrSliceExecFns;
use vstd::utf8::pop_first_scalar;

verus! {

/// A pure position/length state machine recording what span of the input is
/// currently pending as a scan progresses.
#[derive(Clone, Copy, Debug, PartialEq, Eq, Structural)]
pub enum Cursor {
    /// The cursor is at a position, but corresponds to no items.
    Index(usize),
    /// A position, corresponds to a single item.
    Char(usize),
    /// A position and a length, corresponds to a span of items.
    Slice(usize, usize),
}

impl Cursor {
    /// The recorded position.
    pub open spec fn position(self) -> nat {
        match self {
            Cursor::Index(index) => index as nat,
            Cursor::Char(index) => index as nat,
            Cursor::Slice(index, _) => index as nat,
        }
    }

    /// The length of the pending span: zero at a bare index, one for a single
    /// item, the recorded length for a span.
    pub open spec fn length(self) -> nat {
        match self {
            Cursor::Index(_) => 0,
            Cursor::Char(_) => 1,
            Cursor::Slice(_, length) => length as nat,
        }
    }

    /// The state after growing the pending span by `count` items.
    pub open spec fn extended(self, count: nat) -> Cursor {
        match self {
            Cursor::Index(index) => if count == 1 {
                Cursor::Char(index)
            } else {
                Cursor::Slice(index, count as usize)
            },
            Cursor::Char(index) => Cursor::Slice(index, (1 + count) as usize),
            Cursor::Slice(index, length) => Cursor::Slice(index, (length + count) as usize),
        }
    }

    /// The state after committing the pending span: empty, positioned just
    /// past it.
    pub open spec fn advanced(self) -> Cursor {
        Cursor::Index((self.position() + self.length()) as usize)
    }

    /// A fresh cursor: empty, at position zero.
    pub fn new() -> (r: Self)
        ensures
            r == Cursor::Index(0usize),
    {
        Cursor::Index(0)
    }

    /// Get the position of the cursor.
    pub fn index(&self) -> (r: usize)
        ensures
            r == self.position(),
    {
        match *self {
            Cursor::Index(index) => index,
            Cursor::Char(index) => index,
            Cursor::Slice(index, _) => index,
        }
    }

    /// Get the length of the pending span, zero if the cursor is a bare index.
    pub fn len(&self) -> (r: usize)
        ensures
            r == self.length(),
    {
        match *self {
            Cursor::Index(_) => 0,
            Cursor::Char(_) => 1,
            Cursor::Slice(_, length) => length,
        }
    }

    /// True when no items are pending.
    pub fn is_empty(&self) -> (r: bool)
        ensures
            r == (self.length() == 0),
    {
        matches!(*self, Cursor::Index(_) | Cursor::Slice(_, 0))
    }

    /// Advance the cursor past the pending span so that it is ready for
    /// another scan. The position grows by the pending length; advancing an
    /// empty cursor changes nothing.
    pub fn advance(&mut self) -> (r: &mut Self)
        requires
            old(self).position() + old(self).length() <= usize::MAX,
        ensures
            *r == old(self).advanced(),
            *final(self) == *final(r),
    {
        *self = match *self {
            Cursor::Index(index) => Cursor::Index(index),
            Cursor::Char(index) => Cursor::Index(index + 1),
            Cursor::Slice(index, length) => Cursor::Index(index + length),
        };
        self
    }

    /// Extend the pending span by `count` items. The position is unchanged.
    pub fn extend(&mut self, count: usize) -> (r: &mut Self)
        requires
            old(self).length() + count <= usize::MAX,
        ensures
            *r == old(self).extended(count as nat),
            *final(self) == *final(r),
    {
        *self = match *self {
            Cursor::Index(index) => if count == 1 {
                Cursor::Char(index)
            } else {
                Cursor::Slice(index, count)
            },
            Cursor::Char(index) => Cursor::Slice(index, 1 + count),
            Cursor::Slice(index, length) => Cursor::Slice(index, length + count),
        };
        self
    }
}

/// The materialized result of committing a pending span: nothing was pending,
/// a single character, a string span, or the end of the input.
#[derive(Clone, Debug, Default, PartialEq, Eq)]
pub enum Selection {
    /// Nothing was pending.
    #[default]
    Empty,
    /// The pending span was a single character.
    Char(char),
    /// The pending span was a string.
    Slice(String),
    /// A non-zero span was requested, but the source ran out — or turned
    /// malformed — before satisfying it.
    EndOfFile,
}

impl Selection {
    /// What `eq_slice` compares: a string selection matches the characters
    /// themselves; a character selection matches only a one-byte string — a
    /// single ASCII character — holding that character.
    pub open spec fn matches_str(self, s: Seq<char>) -> bool {
        match self {
            Selection::Char(c) => s.len() == 1 && s[0] == c && (c as u32) <= 0x7f,
            Selection::Slice(buf) => buf@ == s,
            _ => false,
        }
    }

    /// True when the selection is a single character equal to `ch`.
    pub fn eq_char(&self, ch: char) -> (r: bool)
        ensures
            r == (match *self {
                Selection::Char(c) => c == ch,
                _ => false,
            }),
    {
        match self {
            Selection::Char(c) => *c == ch,
            _ => false,
        }
    }

    /// True when the selection holds the text `slice`: a string selection by
    /// character equality, a character selection only against a single-byte
    /// string.
    pub fn eq_slice(&self, slice: &str) -> (r: bool)
        ensures
            r == self.matches_str(slice@),
    {
        match self {
            Selection::Char(c) => {
                if slice.unicode_len() == 1 {
                    let c2 = slice.get_char(0);
                    *c == c2 && (c2 as u32) <= 0x7f
                } else {
                    false
                }
            },
            Selection::Slice(buf) => {
                let other = slice.to_owned();
                *buf == other
            },
            _ => false,
        }
    }

    /// Get the character out of the selection: a character selection, or a
    /// string selection whose text is one byte — a single ASCII character.
    pub fn to_char_unchecked(self) -> (r: char)
        requires
            self matches Selection::Char(_) || (self matches Selection::Slice(s) && s@.len() == 1
                && (s@[0] as u32) <= 0x7f),
        ensures
            match self {
                Selection::Char(c) => r == c,
                Selection::Slice(s) => r == s@[0],
                _ => false,
            },
    {
        match self {
            Selection::Char(c) => c,
            Selection::Slice(s) => s.as_str().get_char(0),
            _ => vstd::pervasive::unreached(),
        }
    }

    /// Get the text out of the selection, which must be a string selection.
    pub fn to_slice_unchecked(&self) -> (r: &str)
        requires
            self matches Selection::Slice(_),
        ensures
            match self {
                Selection::Slice(s) => r@ == s@,
                _ => false,
            },
    {
        match self {
            Selection::Slice(s) => s.as_str(),
            _ => vstd::pervasive::unreached(),
        }
    }
}

/// Mark-extend-commit scanning: a character-level lookahead source coupled
/// with a cursor recording the pending span. Callers grow the span with
/// `take`, then materialize it with `selection` — or report it without
/// committing, with `peek`.
#[derive(Debug)]
pub struct Scanner {
    source: SourceChars,
    cursor: Cursor,
}

impl Scanner {
    /// Internal soundness of the underlying source.
    pub closed spec fn wf(self) -> bool {
        self.source.wf()
    }

    /// The bytes not yet consumed from the underlying source.
    pub closed spec fn remaining(self) -> Seq<u8> {
        self.source.remaining()
    }

    /// The current cursor state.
    pub closed spec fn cur(self) -> Cursor {
        self.cursor
    }

    /// Scan an in-memory byte stream from the start.
    pub fn new(source: Vec<u8>) -> (r: Self)
        ensures
            r.wf(),
            r.remaining() == source@,
            r.cur() == Cursor::Index(0usize),
    {
        Scanner { source: SourceChars::new(source), cursor: Cursor::new() }
    }

    /// Get the current cursor.
    pub fn cursor(&self) -> (r: Cursor)
        ensures
            r == self.cur(),
    {
        self.cursor
    }

    /// Extend the pending span by `count` characters. May be called several
    /// times before materializing; the lengths accumulate.
    pub fn take(&mut self, count: usize) -> (r: &mut Self)
        requires
            old(self).wf(),
            old(self).cur().length() + count <= usize::MAX,
        ensures
            r.wf(),
            r.remaining() == old(self).remaining(),
            r.cur() == old(self).cur().extended(count as nat),
            *final(self) == *final(r),
    {
        self.cursor.extend(count);
        self
    }

    /// Materialize the pending span against the source and advance the cursor
    /// past it, whatever the outcome.
    ///
    /// An empty cursor yields `Empty` and touches no input. A single-item
    /// cursor yields the next character, a span cursor of length `L` the next
    /// `L` characters as a string; either consumes what it yields. When the
    /// source cannot supply the span — the stream ends, or stops decoding at
    /// malformed bytes — the result is `EndOfFile`, nothing is consumed, and
    /// the cursor still advances past the attempted span.
    pub fn selection(&mut self) -> (r: Selection)
        requires
            old(self).wf(),
            old(self).cur().position() + old(self).cur().length() <= usize::MAX,
        ensures
            final(self).wf(),
            final(self).cur() == old(self).cur().advanced(),
            match old(self).cur() {
                Cursor::Index(_) => r == Selection::Empty
                    && final(self).remaining() == old(self).remaining(),
                Cursor::Char(_) => (if lex_chars(old(self).remaining()).len() >= 1 {
                    r == Selection::Char(lex_chars(old(self).remaining())[0])
                        && final(self).remaining() == pop_scalars(old(self).remaining(), 1)
                } else {
                    r == Selection::EndOfFile && final(self).remaining() == old(self).remaining()
                }),
                Cursor::Slice(_, length) => (if lex_chars(old(self).remaining()).len() >= length {
                    (match r {
                        Selection::Slice(s) => s@ == lex_chars(old(self).remaining()).take(
                            length as int,
                        ),
                        _ => false,
                    }) && final(self).remaining() == pop_scalars(old(self).remaining(),
                    length as nat)
                } else {
                    r == Selection::EndOfFile && final(self).remaining() == old(self).remaining()
                }),
            },
    {
        let cur = self.cursor;
        let r = match cur {
            Cursor::Index(_) => Selection::Empty,
            Cursor::Char(_) => {
                match self.source.next() {
                    Some(c) => {
                        proof {
                            crate::iter::lemma_lex_chars_unfold(old(self).remaining());
                            assert(pop_scalars(pop_first_scalar(old(self).remaining()), 0)
                                == pop_first_scalar(old(self).remaining()));
                            assert(pop_scalars(old(self).remaining(), 1) == pop_first_scalar(
                                old(self).remaining(),
                            ));
                        }
                        Selection::Char(c)
                    },
                    None => {
                        proof {
                            crate::iter::lemma_lex_chars_unfold(old(self).remaining());
                        }
                        Selection::EndOfFile
                    },
                }
            },
            Cursor::Slice(_, length) => {
                match self.source.buffer(length) {
                    Some(s) => {
                        self.source.advance_chars(length);
                        Selection::Slice(s)
                    },
                    None => Selection::EndOfFile,
                }
            },
        };
        self.cursor.advance();
        r
    }

    /// Report what `selection` would yield for a pending length of `count`,
    /// from just past the currently pending span, without touching the live
    /// state: the work happens on an independent copy of the scanner, whose
    /// pending span is first materialized and discarded.
    pub fn peek(&self, count: usize) -> (r: Selection)
        requires
            self.wf(),
            self.cur().position() + self.cur().length() + count <= usize::MAX,
        ensures
            count == 1 ==> peek_one_reports(self.remaining(), self.cur().length(), r),
            count != 1 ==> ({
                let ahead = ahead_of(self.remaining(), self.cur().length());
                if lex_chars(ahead).len() >= count {
                    match r {
                        Selection::Slice(s) => s@ == lex_chars(ahead).take(count as int),
                        _ => false,
                    }
                } else {
                    r == Selection::EndOfFile
                }
            }),
    {
        let mut scan = Scanner { source: self.source.clone(), cursor: self.cursor };
        let _pending = scan.selection();
        scan.take(count);
        scan.selection()
    }
}

/// The unconsumed input just past the pending span: what is left once the
/// `pending` pending characters are consumed, or everything, when the source
/// cannot supply that many.
pub open spec fn ahead_of(bytes: Seq<u8>, pending: nat) -> Seq<u8> {
    if lex_chars(bytes).len() >= pending {
        pop_scalars(bytes, pending)
    } else {
        bytes
    }
}

/// What a single-character peek reports of a scanner whose unconsumed input
/// is `bytes` and whose pending span has `pending` characters: the first
/// character past the pending span, or the end of the input.
pub open spec fn peek_one_reports(bytes: Seq<u8>, pending: nat, r: Selection) -> bool {
    if lex_chars(ahead_of(bytes, pending)).len() >= 1 {
        r == Selection::Char(lex_chars(ahead_of(bytes, pending))[0])
    } else {
        r == Selection::EndOfFile
    }
}

/// Peeking is non-destructive and repeatable: `peek` borrows the scanner
/// immutably, so two consecutive single-character peeks report on the same
/// state — and for one state that report is fully determined, so the two
/// calls return the same selection.
pub proof fn lemma_peek_idempotent(bytes: Seq<u8>, pending: nat, r1: Selection, r2: Selection)
    requires
        peek_one_reports(bytes, pending, r1),
        peek_one_reports(bytes, pending, r2),
    ensures
        r1 == r2,
{
}

/// A take-and-materialize after a successful single-character peek consumes
/// exactly the peeked character: materializing a single-item span yields the
/// first character ahead — the one the peek reported — and leaves precisely
/// the characters behind it.
pub proof fn lemma_peek_take_agree(bytes: Seq<u8>)
    requires
        lex_chars(bytes).len() >= 1,
    ensures
        lex_chars(pop_scalars(bytes, 1)) == lex_chars(bytes).drop_first(),
{
    crate::iter::lemma_pop_scalars_lex(bytes, 1);
    assert(lex_chars(bytes).skip(1) =~= lex_chars(bytes).drop_first());
}

} // verus!

