//! The lookahead layer: a buffered pull-source over raw bytes
//! ([`SourceBytes`]) and an incremental UTF-8 decoder over it
//! ([`SourceChars`]) with character-level lookahead.

use std::collections::VecDeque;
use vstd::prelude::*;
use vstd::utf8::*;

verus! {

/// Relies on char::from_u32: it returns the character with the given code
/// point exactly when the value is a Unicode scalar (at most 0x10FFFF and not
/// a surrogate), and nothing otherwise.
pub assume_specification[ char::from_u32 ](v: u32) -> (r: Option<char>)
    ensures
        r is Some <==> is_scalar(v),
        r is Some ==> r.unwrap() as u32 == v,
;

/// Relies on String::push: it appends the given character to the end of the
/// string.
#[verifier::external_body]
fn push_char(s: &mut String, c: char)
    ensures
        final(s)@ == old(s)@.push(c),
{
    s.push(c);
}

/// Decode the first Unicode scalar of `win@.skip(i)`: its code point and the
/// byte width of its encoding, or nothing when those bytes do not begin with
/// a well-formed encoding (a stray continuation byte, a truncated sequence,
/// an overlong encoding, a surrogate, or a value past 0x10FFFF).
fn decode_scalar_at(win: &Vec<u8>, i: usize) -> (r: Option<(u32, usize)>)
    requires
        i < win@.len(),
    ensures
        match r {
            Some((cp, w)) => {
                &&& valid_first_scalar(win@.skip(i as int))
                &&& cp == decode_first_scalar(win@.skip(i as int))
                &&& w == length_of_first_scalar(win@.skip(i as int))
                &&& is_scalar(cp)
                &&& 1 <= w <= 4
                &&& i + w <= win@.len()
            },
            None => !valid_first_scalar(win@.skip(i as int)),
        },
{
    let ghost s = win@.skip(i as int);
    let len = win.len();
    let b0 = win[i];
    proof {
        assert(s[0] == win@[i as int]);
        assert(s.len() == win@.len() - i);
    }
    if b0 <= 0x7f {
        proof {
            assert((b0 & 0x7f) == b0) by (bit_vector)
                requires
                    b0 <= 0x7f,
            ;
        }
        Some((b0 as u32, 1))
    } else if 0xc0 <= b0 && b0 <= 0xdf {
        if len - i < 2 {
            return None;
        }
        let b1 = win[i + 1];
        proof {
            assert(s[1] == win@[i + 1]);
        }
        if !(0x80 <= b1 && b1 <= 0xbf) {
            return None;
        }
        let cp: u32 = (((b0 & 0x1f) as u32) << 6) | ((b1 & 0x3f) as u32);
        if cp < 0x80 {
            return None;
        }
        proof {
            assert(cp <= 0x7ff) by (bit_vector)
                requires
                    cp == (((b0 & 0x1f) as u32) << 6) | ((b1 & 0x3f) as u32),
            ;
        }
        Some((cp, 2))
    } else if 0xe0 <= b0 && b0 <= 0xef {
        if len - i < 3 {
            return None;
        }
        let b1 = win[i + 1];
        let b2 = win[i + 2];
        proof {
            assert(s[1] == win@[i + 1]);
            assert(s[2] == win@[i + 2]);
        }
        if !(0x80 <= b1 && b1 <= 0xbf) || !(0x80 <= b2 && b2 <= 0xbf) {
            return None;
        }
        let cp: u32 = (((b0 & 0x0f) as u32) << 12) | (((b1 & 0x3f) as u32) << 6) | ((b2
            & 0x3f) as u32);
        if cp < 0x800 || (0xd800 <= cp && cp <= 0xdfff) {
            return None;
        }
        proof {
            assert(cp <= 0xffff) by (bit_vector)
                requires
                    cp == (((b0 & 0x0f) as u32) << 12) | (((b1 & 0x3f) as u32) << 6) | ((b2
                        & 0x3f) as u32),
            ;
        }
        Some((cp, 3))
    } else if 0xf0 <= b0 && b0 <= 0xf7 {
        if len - i < 4 {
            return None;
        }
        let b1 = win[i + 1];
        let b2 = win[i + 2];
        let b3 = win[i + 3];
        proof {
            assert(s[1] == win@[i + 1]);
            assert(s[2] == win@[i + 2]);
            assert(s[3] == win@[i + 3]);
        }
        if !(0x80 <= b1 && b1 <= 0xbf) || !(0x80 <= b2 && b2 <= 0xbf) || !(0x80 <= b3 && b3
            <= 0xbf) {
            return None;
        }
        let cp: u32 = (((b0 & 0x07) as u32) << 18) | (((b1 & 0x3f) as u32) << 12) | (((b2
            & 0x3f) as u32) << 6) | ((b3 & 0x3f) as u32);
        if cp < 0x10000 || cp > 0x10ffff {
            return None;
        }
        Some((cp, 4))
    } else {
        None
    }
}

/// The characters a decoder will produce from the given bytes: the scalars of
/// the longest prefix that decodes as UTF-8, one by one, stopping at the end
/// of the bytes or at the first malformed sequence.
pub open spec fn lex_chars(bytes: Seq<u8>) -> Seq<char>
    decreases bytes.len(),
{
    if valid_first_scalar(bytes) && pop_first_scalar(bytes).len() < bytes.len() {
        seq![decode_first_scalar(bytes) as char] + lex_chars(pop_first_scalar(bytes))
    } else {
        seq![]
    }
}

/// What a byte-level peek reports of a source whose unconsumed input is
/// `bytes`: the front byte, or nothing when all input has been consumed.
pub open spec fn peeked_byte(bytes: Seq<u8>) -> Option<u8> {
    if bytes.len() > 0 {
        Some(bytes[0])
    } else {
        None
    }
}

/// What a character-level peek reports of a decoder whose unconsumed input is
/// `bytes`: the first character it will produce, or nothing.
pub open spec fn peeked_char(bytes: Seq<u8>) -> Option<char> {
    if lex_chars(bytes).len() > 0 {
        Some(lex_chars(bytes)[0])
    } else {
        None
    }
}

/// The bytes left after decoding `count` scalars off the front.
pub open spec fn pop_scalars(bytes: Seq<u8>, count: nat) -> Seq<u8>
    recommends
        lex_chars(bytes).len() >= count,
    decreases count,
{
    if count == 0 {
        bytes
    } else {
        pop_scalars(pop_first_scalar(bytes), (count - 1) as nat)
    }
}

/// The number of bytes the first `count` scalars occupy.
pub open spec fn scalars_byte_len(bytes: Seq<u8>, count: nat) -> int
    recommends
        lex_chars(bytes).len() >= count,
    decreases count,
{
    if count == 0 {
        0
    } else {
        length_of_first_scalar(bytes) + scalars_byte_len(
            pop_first_scalar(bytes),
            (count - 1) as nat,
        )
    }
}

/// A well-formed first scalar only depends on its own bytes: it is shared by
/// any two sequences of which one is a prefix of the other, as long as the
/// prefix reaches past the scalar.
proof fn lemma_first_scalar_prefix(a: Seq<u8>, b: Seq<u8>)
    requires
        a.len() <= b.len(),
        a == b.take(a.len() as int),
    ensures
        valid_first_scalar(a) ==> valid_first_scalar(b) && length_of_first_scalar(b)
            == length_of_first_scalar(a) && decode_first_scalar(b) == decode_first_scalar(a),
        valid_first_scalar(b) && length_of_first_scalar(b) <= a.len() ==> valid_first_scalar(a),
{
    assert(forall|j: int| 0 <= j < a.len() ==> a[j] == b[j]);
}

/// `lex_chars` unfolds one scalar at a time: a well-formed first scalar
/// always occupies at least one byte, so the length guard in its recursion
/// never blocks the unfolding.
pub proof fn lemma_lex_chars_unfold(bytes: Seq<u8>)
    ensures
        valid_first_scalar(bytes) ==> lex_chars(bytes) == seq![
            decode_first_scalar(bytes) as char,
        ] + lex_chars(pop_first_scalar(bytes)),
        !valid_first_scalar(bytes) ==> lex_chars(bytes) == Seq::<char>::empty(),
{
    if valid_first_scalar(bytes) {
        assert(pop_first_scalar(bytes).len() < bytes.len());
    }
    assert(Seq::<char>::empty() =~= seq![]);
}

/// A sequence holding exactly one well-formed scalar encoding is valid UTF-8
/// and decodes to that one character.
proof fn lemma_decode_single_scalar(s: Seq<u8>)
    requires
        valid_first_scalar(s),
        length_of_first_scalar(s) == s.len(),
    ensures
        valid_utf8(s),
        decode_utf8(s) == seq![decode_first_scalar(s) as char],
{
    assert(pop_first_scalar(s) =~= Seq::<u8>::empty());
    reveal_with_fuel(valid_utf8, 2);
    reveal_with_fuel(decode_utf8, 2);
    assert(decode_utf8(s) =~= seq![decode_first_scalar(s) as char]);
}

/// Decoding distributes over concatenation of two valid UTF-8 sequences.
proof fn lemma_decode_utf8_concat(b1: Seq<u8>, b2: Seq<u8>)
    requires
        valid_utf8(b1),
        valid_utf8(b2),
    ensures
        valid_utf8(b1 + b2),
        decode_utf8(b1 + b2) == decode_utf8(b1) + decode_utf8(b2),
    decreases b1.len(),
{
    valid_utf8_concat(b1, b2);
    if b1.len() == 0 {
        assert(b1 + b2 =~= b2);
        assert(decode_utf8(b1) + decode_utf8(b2) =~= decode_utf8(b2));
    } else {
        let rest = pop_first_scalar(b1);
        assert(b1 =~= (b1 + b2).take(b1.len() as int));
        lemma_first_scalar_prefix(b1, b1 + b2);
        assert(pop_first_scalar(b1 + b2) =~= rest + b2);
        lemma_decode_utf8_concat(rest, b2);
        assert(decode_utf8(b1 + b2) =~= decode_utf8(b1) + decode_utf8(b2));
    }
}

/// The first `count` scalars of a byte sequence occupy a prefix of it that is
/// valid UTF-8 on its own, decodes to exactly those `count` characters, and
/// leaves `pop_scalars` behind.
proof fn lemma_scalars_prefix(bytes: Seq<u8>, count: nat)
    requires
        lex_chars(bytes).len() >= count,
    ensures
        count <= scalars_byte_len(bytes, count) <= bytes.len(),
        valid_utf8(bytes.take(scalars_byte_len(bytes, count))),
        decode_utf8(bytes.take(scalars_byte_len(bytes, count))) == lex_chars(bytes).take(
            count as int,
        ),
        bytes.skip(scalars_byte_len(bytes, count)) == pop_scalars(bytes, count),
    decreases count,
{
    lemma_lex_chars_unfold(bytes);
    if count == 0 {
        assert(bytes.take(0) =~= Seq::<u8>::empty());
        assert(decode_utf8(bytes.take(0)) =~= lex_chars(bytes).take(0));
        assert(bytes.skip(0) =~= bytes);
    } else {
        assert(valid_first_scalar(bytes));
        let w = length_of_first_scalar(bytes);
        let rest = pop_first_scalar(bytes);
        lemma_scalars_prefix(rest, (count - 1) as nat);
        let m2 = scalars_byte_len(rest, (count - 1) as nat);
        let m = scalars_byte_len(bytes, count);
        assert(m == w + m2);
        let head = bytes.take(w);
        lemma_first_scalar_prefix(head, bytes);
        assert(head =~= bytes.take(head.len() as int));
        lemma_decode_single_scalar(head);
        assert(rest.take(m2) =~= rest.subrange(0, m2));
        lemma_decode_utf8_concat(head, rest.take(m2));
        assert(bytes.take(m) =~= head + rest.take(m2));
        assert(decode_utf8(bytes.take(m)) =~= lex_chars(bytes).take(count as int));
        assert(bytes.skip(m) =~= rest.skip(m2));
    }
}

/// Decoding `count` scalars off the front leaves a source whose characters
/// are exactly the remaining ones, in order.
pub proof fn lemma_pop_scalars_lex(bytes: Seq<u8>, count: nat)
    requires
        lex_chars(bytes).len() >= count,
    ensures
        lex_chars(pop_scalars(bytes, count)) == lex_chars(bytes).skip(count as int),
        count < lex_chars(bytes).len() ==> valid_first_scalar(pop_scalars(bytes, count)),
    decreases count,
{
    lemma_lex_chars_unfold(bytes);
    if count == 0 {
        assert(lex_chars(bytes).skip(0) =~= lex_chars(bytes));
        if 0 < lex_chars(bytes).len() {
            assert(valid_first_scalar(bytes));
        }
    } else {
        let rest = pop_first_scalar(bytes);
        lemma_pop_scalars_lex(rest, (count - 1) as nat);
        assert(lex_chars(rest).skip(count - 1) =~= lex_chars(bytes).skip(count as int));
    }
}

/// Popping one more scalar commutes with popping a batch: the scalar after
/// `count` popped ones is the first scalar of what `pop_scalars` leaves.
pub proof fn lemma_pop_scalars_succ(bytes: Seq<u8>, count: nat)
    requires
        lex_chars(bytes).len() > count,
    ensures
        pop_scalars(bytes, count + 1) == pop_first_scalar(pop_scalars(bytes, count)),
    decreases count,
{
    lemma_lex_chars_unfold(bytes);
    assert(pop_scalars(bytes, count + 1) == pop_scalars(pop_first_scalar(bytes), count));
    if count == 0 {
        assert(pop_scalars(pop_first_scalar(bytes), 0) == pop_first_scalar(bytes));
        assert(pop_scalars(bytes, 0) == bytes);
    } else {
        lemma_pop_scalars_succ(pop_first_scalar(bytes), (count - 1) as nat);
    }
}

/// A valid UTF-8 sequence decodes to exactly the characters a decoder will
/// produce from it: nothing is cut short by a malformed tail.
pub proof fn lemma_lex_chars_of_valid(bytes: Seq<u8>)
    requires
        valid_utf8(bytes),
    ensures
        lex_chars(bytes) == decode_utf8(bytes),
    decreases bytes.len(),
{
    lemma_lex_chars_unfold(bytes);
    if bytes.len() == 0 {
        assert(!valid_first_scalar(bytes));
        assert(lex_chars(bytes) =~= decode_utf8(bytes));
    } else {
        lemma_lex_chars_of_valid(pop_first_scalar(bytes));
        assert(lex_chars(bytes) =~= decode_utf8(bytes));
    }
}

/// A buffered pull-source over raw bytes: a one-shot in-memory stream plus a
/// FIFO queue of bytes already pulled from the stream but not yet consumed.
///
/// The queue always holds a prefix of the unconsumed input, in original
/// order: consuming pops the queue front before pulling the stream, looking
/// ahead pulls into the queue back and never removes anything.
#[derive(Debug)]
pub struct SourceBytes {
    input: Vec<u8>,
    pulled: usize,
    buffer: VecDeque<u8>,
}

impl SourceBytes {
    /// Internal soundness: never pulled more bytes than the stream holds, and
    /// the queue holds nothing that was not pulled.
    pub closed spec fn wf(self) -> bool {
        self.pulled <= self.input@.len() && self.buffer@.len() <= self.pulled
    }

    /// The unconsumed input always fits in a usize: the queue never holds
    /// more than was pulled from the stream, so what is left never exceeds
    /// the stream's own length.
    pub proof fn lemma_remaining_fits(self)
        requires
            self.wf(),
        ensures
            self.remaining().len() <= usize::MAX,
    {
        assert(self.buffer.len() == self.buffer@.len());
        assert(self.input.len() == self.input@.len());
    }

    /// The bytes not yet consumed: the buffered prefix followed by the
    /// unpulled remainder of the stream.
    pub closed spec fn remaining(self) -> Seq<u8> {
        self.buffer@ + self.input@.skip(self.pulled as int)
    }

    /// Wrap an in-memory byte stream; nothing is buffered yet.
    pub fn new(input: Vec<u8>) -> (r: Self)
        ensures
            r.wf(),
            r.remaining() == input@,
    {
        let r = SourceBytes { input, pulled: 0, buffer: VecDeque::new() };
        proof {
            assert(r.remaining() =~= r.input@);
        }
        r
    }

    /// Remove and return the next unconsumed byte: the queue front if the
    /// queue is non-empty, else the next stream byte. Returns nothing exactly
    /// when all input has been consumed.
    pub fn next(&mut self) -> (r: Option<u8>)
        requires
            old(self).wf(),
        ensures
            final(self).wf(),
            match r {
                Some(b) => old(self).remaining().len() > 0 && b == old(self).remaining()[0]
                    && final(self).remaining() == old(self).remaining().drop_first(),
                None => old(self).remaining().len() == 0 && final(self).remaining() == old(
                    self,
                ).remaining(),
            },
    {
        match self.buffer.pop_front() {
            Some(b) => {
                proof {
                    assert(final(self).remaining() =~= old(self).remaining().drop_first());
                }
                Some(b)
            },
            None => {
                if self.pulled < self.input.len() {
                    let b = self.input[self.pulled];
                    self.pulled = self.pulled + 1;
                    proof {
                        assert(old(self).remaining()[0] == b);
                        assert(final(self).remaining() =~= old(self).remaining().drop_first());
                    }
                    Some(b)
                } else {
                    proof {
                        assert(final(self).remaining() =~= old(self).remaining());
                    }
                    None
                }
            },
        }
    }

    /// Pull stream bytes into the queue until it holds `count` bytes or the
    /// stream is exhausted, then return a copy of the queue's first `count`
    /// bytes — or of all of it, if less than `count` is left in total.
    fn fill(&mut self, count: usize) -> (r: Vec<u8>)
        requires
            old(self).wf(),
        ensures
            final(self).wf(),
            final(self).remaining() == old(self).remaining(),
            count <= old(self).remaining().len() ==> r@ == old(self).remaining().take(
                count as int,
            ),
            count > old(self).remaining().len() ==> r@ == old(self).remaining(),
    {
        while self.buffer.len() < count && self.pulled < self.input.len()
            invariant
                self.wf(),
                self.remaining() == old(self).remaining(),
                self.input == old(self).input,
            decreases self.input@.len() - self.pulled,
        {
            let b = self.input[self.pulled];
            self.pulled = self.pulled + 1;
            self.buffer.push_back(b);
            proof {
                assert(self.remaining() =~= old(self).remaining());
            }
        }
        let n = if count <= self.buffer.len() {
            count
        } else {
            self.buffer.len()
        };
        proof {
            assert(self.buffer@.len() <= self.remaining().len());
            if count > old(self).remaining().len() {
                assert(self.remaining() =~= self.buffer@);
            }
        }
        let mut r: Vec<u8> = Vec::new();
        let mut i: usize = 0;
        while i < n
            invariant
                i <= n,
                n <= self.buffer@.len(),
                r@ == self.buffer@.take(i as int),
            decreases n - i,
        {
            let b = self.buffer[i];
            r.push(b);
            i = i + 1;
            proof {
                assert(r@ =~= self.buffer@.take(i as int));
            }
        }
        proof {
            assert(r@ =~= self.remaining().take(n as int));
            if count > old(self).remaining().len() {
                assert(r@ =~= old(self).remaining());
            }
        }
        r
    }

    /// Consume up to `count` stream bytes into the queue and return a copy of
    /// the queue's first `count` bytes. If the input holds fewer than `count`
    /// bytes in total, nothing is returned; the bytes pulled meanwhile stay
    /// buffered and come out through `next`. Repeated calls with the same or a
    /// smaller `count` pull nothing further and return an equal view.
    pub fn buffer(&mut self, count: usize) -> (r: Option<Vec<u8>>)
        requires
            old(self).wf(),
        ensures
            final(self).wf(),
            final(self).remaining() == old(self).remaining(),
            match r {
                Some(v) => count <= old(self).remaining().len() && v@ == old(
                    self,
                ).remaining().take(count as int),
                None => count > old(self).remaining().len(),
            },
    {
        let v = self.fill(count);
        if v.len() == count {
            Some(v)
        } else {
            None
        }
    }

    /// Peek at the next unconsumed byte without consuming it.
    pub fn peek(&mut self) -> (r: Option<u8>)
        requires
            old(self).wf(),
        ensures
            final(self).wf(),
            final(self).remaining() == old(self).remaining(),
            r == peeked_byte(old(self).remaining()),
    {
        match self.buffer(1) {
            Some(v) => Some(v[0]),
            None => None,
        }
    }

    /// Peek at the next `count` unconsumed bytes without consuming them.
    pub fn look(&mut self, count: usize) -> (r: Option<Vec<u8>>)
        requires
            old(self).wf(),
        ensures
            final(self).wf(),
            final(self).remaining() == old(self).remaining(),
            match r {
                Some(v) => count <= old(self).remaining().len() && v@ == old(
                    self,
                ).remaining().take(count as int),
                None => count > old(self).remaining().len(),
            },
    {
        self.buffer(count)
    }
}

fn copy_bytes(v: &Vec<u8>) -> (r: Vec<u8>)
    ensures
        r@ == v@,
{
    let mut r: Vec<u8> = Vec::new();
    let mut i: usize = 0;
    while i < v.len()
        invariant
            i <= v@.len(),
            r@ == v@.take(i as int),
        decreases v@.len() - i,
    {
        r.push(v[i]);
        i = i + 1;
        proof {
            assert(r@ =~= v@.take(i as int));
        }
    }
    proof {
        assert(v@.take(i as int) =~= v@);
    }
    r
}

fn copy_queue(q: &VecDeque<u8>) -> (r: VecDeque<u8>)
    ensures
        r@ == q@,
{
    let mut r: VecDeque<u8> = VecDeque::new();
    let mut i: usize = 0;
    while i < q.len()
        invariant
            i <= q@.len(),
            r@ == q@.take(i as int),
        decreases q@.len() - i,
    {
        r.push_back(q[i]);
        i = i + 1;
        proof {
            assert(r@ =~= q@.take(i as int));
        }
    }
    proof {
        assert(q@.take(i as int) =~= q@);
    }
    r
}

impl Clone for SourceBytes {
    /// An independent copy over the same unconsumed input. This is sound
    /// because the stream is an in-memory, re-readable one; the copy and the
    /// original then consume independently.
    fn clone(&self) -> (r: Self)
        ensures
            r.wf() == self.wf(),
            r.remaining() == self.remaining(),
    {
        SourceBytes {
            input: copy_bytes(&self.input),
            pulled: self.pulled,
            buffer: copy_queue(&self.buffer),
        }
    }
}

/// Decode a whole byte window: when it is valid UTF-8 end to end and decodes
/// to at least `count` characters, return all its characters as a string.
fn decode_window(win: &Vec<u8>, count: usize) -> (r: Option<String>)
    ensures
        match r {
            Some(s) => valid_utf8(win@) && s@ == decode_utf8(win@) && s@.len() >= count,
            None => !(valid_utf8(win@) && decode_utf8(win@).len() >= count),
        },
{
    let mut out = String::new();
    let mut nchars: usize = 0;
    let mut i: usize = 0;
    while i < win.len()
        invariant
            i <= win@.len(),
            valid_utf8(win@.take(i as int)),
            out@ == decode_utf8(win@.take(i as int)),
            nchars == out@.len(),
            nchars <= i,
        decreases win@.len() - i,
    {
        match decode_scalar_at(win, i) {
            Some((cp, w)) => {
                let c = match char::from_u32(cp) {
                    Some(c) => c,
                    None => vstd::pervasive::unreached(),
                };
                push_char(&mut out, c);
                proof {
                    let head = win@.take(i as int);
                    let scalar = win@.subrange(i as int, i + w);
                    assert(scalar =~= win@.skip(i as int).take(w as int));
                    lemma_first_scalar_prefix(scalar, win@.skip(i as int));
                    lemma_decode_single_scalar(scalar);
                    lemma_decode_utf8_concat(head, scalar);
                    assert(win@.take(i + w) =~= head + scalar);
                    char_u32_cast(c, cp);
                    assert(out@ =~= decode_utf8(win@.take(i + w)));
                }
                i = i + w;
                nchars = nchars + 1;
            },
            None => {
                proof {
                    assert(win@.skip(i as int).len() > 0);
                    assert(!valid_utf8(win@.skip(i as int)));
                    assert(win@.take(i as int) =~= win@.subrange(0, i as int));
                    partial_valid_partial_invalid_utf8(win@, i as int);
                }
                return None;
            },
        }
    }
    proof {
        assert(win@.take(i as int) =~= win@);
    }
    if nchars >= count {
        Some(out)
    } else {
        None
    }
}

/// An incremental UTF-8 decoder over a byte-level lookahead source: yields
/// Unicode scalar values one at a time and supports looking ahead by whole
/// characters, growing the underlying byte window until it validates as UTF-8
/// and holds enough of them.
///
/// A byte sequence that does not begin with a well-formed scalar encoding —
/// whether truncated by the end of the stream or malformed — stops the
/// decoder: it yields nothing and consumes nothing, so the offending bytes
/// stay buffered in the byte layer.
#[derive(Debug)]
pub struct SourceChars {
    source: SourceBytes,
}

impl SourceChars {
    /// Internal soundness of the underlying byte layer.
    pub closed spec fn wf(self) -> bool {
        self.source.wf()
    }

    /// The bytes not yet consumed from the underlying byte layer.
    pub closed spec fn remaining(self) -> Seq<u8> {
        self.source.remaining()
    }

    /// The characters this decoder will produce, in order.
    pub open spec fn chars(self) -> Seq<char> {
        lex_chars(self.remaining())
    }

    /// Wrap an in-memory byte stream.
    pub fn new(input: Vec<u8>) -> (r: Self)
        ensures
            r.wf(),
            r.remaining() == input@,
    {
        SourceChars { source: SourceBytes::new(input) }
    }

    /// Decode and consume the next character: the scalar encoded by the first
    /// unconsumed bytes. When those bytes do not begin with a well-formed
    /// encoding — the stream is exhausted, truncated mid-sequence, or
    /// malformed — nothing is returned and nothing is consumed.
    pub fn next(&mut self) -> (r: Option<char>)
        requires
            old(self).wf(),
        ensures
            final(self).wf(),
            valid_first_scalar(old(self).remaining()) ==> r == Some(
                (decode_first_scalar(old(self).remaining()) as char),
            ) && final(self).remaining() == pop_first_scalar(old(self).remaining()),
            !valid_first_scalar(old(self).remaining()) ==> r == None::<char>
                && final(self).remaining() == old(self).remaining(),
    {
        let ghost rem = old(self).remaining();
        let win = self.source.fill(4);
        proof {
            if rem.len() >= 4 {
                assert(win@ == rem.take(4));
            } else {
                assert(win@ == rem);
                assert(win@ =~= rem.take(rem.len() as int));
            }
            lemma_first_scalar_prefix(win@, rem);
        }
        if win.len() == 0 {
            return None;
        }
        match decode_scalar_at(&win, 0) {
            Some((cp, w)) => {
                proof {
                    assert(win@.skip(0) =~= win@);
                }
                let c = match char::from_u32(cp) {
                    Some(c) => c,
                    None => vstd::pervasive::unreached(),
                };
                let mut j: usize = 0;
                while j < w
                    invariant
                        j <= w,
                        self.wf(),
                        w <= rem.len(),
                        self.remaining() == rem.skip(j as int),
                    decreases w - j,
                {
                    let popped = self.source.next();
                    proof {
                        assert(rem.skip(j as int).drop_first() =~= rem.skip(j + 1));
                    }
                    if popped.is_none() {
                        // unreachable: at least w - j unconsumed bytes are left
                        return vstd::pervasive::unreached();
                    }
                    j = j + 1;
                }
                proof {
                    assert(rem.skip(w as int) =~= pop_first_scalar(rem));
                    char_u32_cast(c, cp);
                }
                Some(c)
            },
            None => {
                proof {
                    assert(win@.skip(0) =~= win@);
                }
                None
            },
        }
    }

    /// Consume bytes into the byte layer's queue until the window validates
    /// as UTF-8 end to end and decodes to at least `count` characters, then
    /// return that window as a string: the next `count` characters exactly.
    /// If the decoder cannot yield `count` characters — the stream ends or
    /// turns malformed first — nothing is returned; whatever was pulled stays
    /// buffered. Repeated calls with the same or a smaller `count` return a
    /// prefix-equal view.
    pub fn buffer(&mut self, count: usize) -> (r: Option<String>)
        requires
            old(self).wf(),
        ensures
            final(self).wf(),
            final(self).remaining() == old(self).remaining(),
            match r {
                Some(s) => lex_chars(old(self).remaining()).len() >= count && s@ == lex_chars(
                    old(self).remaining(),
                ).take(count as int),
                None => lex_chars(old(self).remaining()).len() < count,
            },
    {
        let ghost rem = old(self).remaining();
        let mut k: usize = 0;
        loop
            invariant
                self.wf(),
                rem == old(self).remaining(),
                self.remaining() == rem,
                forall|k2: int|
                    0 <= k2 < k ==> !(valid_utf8(#[trigger] rem.take(k2)) && decode_utf8(
                        rem.take(k2),
                    ).len() >= count),
            decreases rem.len() + 1 - k,
        {
            match self.source.buffer(k) {
                None => {
                    proof {
                        if lex_chars(rem).len() >= count {
                            lemma_scalars_prefix(rem, count as nat);
                            let m = scalars_byte_len(rem, count as nat);
                            assert(valid_utf8(rem.take(m)));
                            assert(decode_utf8(rem.take(m)).len() >= count);
                            assert(0 <= m < k);
                            assert(false);
                        }
                    }
                    return None;
                },
                Some(win) => {
                    proof {
                        assert(win@ == rem.take(k as int));
                    }
                    match decode_window(&win, count) {
                        Some(s) => {
                            proof {
                                lemma_lex_chars_of_valid(win@);
                                lemma_scalars_prefix(win@, count as nat);
                                let m = scalars_byte_len(win@, count as nat);
                                assert(win@.take(m) =~= rem.take(m));
                                if m < k {
                                    assert(false);
                                }
                                assert(win@.take(m) =~= win@);
                                lemma_lex_prefix_of_lex(rem, k as int);
                            }
                            return Some(s);
                        },
                        None => {},
                    }
                },
            }
            if k == usize::MAX {
                // the window already covered the whole input, which fits in a
                // usize, so no larger window can exist
                proof {
                    self.source.lemma_remaining_fits();
                    assert(rem.len() == usize::MAX);
                    if lex_chars(rem).len() >= count {
                        lemma_scalars_prefix(rem, count as nat);
                        let m = scalars_byte_len(rem, count as nat);
                        if m < k {
                        } else {
                            assert(rem.take(m) =~= rem);
                            lemma_lex_chars_of_valid(rem);
                        }
                        assert(false);
                    }
                }
                return None;
            }
            k = k + 1;
        }
    }

    /// Peek at the next character without consuming anything.
    pub fn peek(&mut self) -> (r: Option<char>)
        requires
            old(self).wf(),
        ensures
            final(self).wf(),
            final(self).remaining() == old(self).remaining(),
            r == peeked_char(old(self).remaining()),
    {
        match self.buffer(1) {
            Some(s) => Some(s.as_str().get_char(0)),
            None => None,
        }
    }

    /// Consume `count` characters that are known to be available.
    pub fn advance_chars(&mut self, count: usize)
        requires
            old(self).wf(),
            lex_chars(old(self).remaining()).len() >= count,
        ensures
            final(self).wf(),
            final(self).remaining() == pop_scalars(old(self).remaining(), count as nat),
    {
        let ghost rem = old(self).remaining();
        let mut j: usize = 0;
        while j < count
            invariant
                self.wf(),
                j <= count,
                rem == old(self).remaining(),
                lex_chars(rem).len() >= count,
                self.remaining() == pop_scalars(rem, j as nat),
            decreases count - j,
        {
            proof {
                lemma_pop_scalars_lex(rem, j as nat);
                lemma_pop_scalars_succ(rem, j as nat);
            }
            let popped = self.next();
            if popped.is_none() {
                // unreachable: at least count - j characters are left
                return vstd::pervasive::unreached();
            }
            j = j + 1;
        }
    }

    /// Peek at the next `count` characters, as a string, without consuming
    /// anything.
    pub fn look(&mut self, count: usize) -> (r: Option<String>)
        requires
            old(self).wf(),
        ensures
            final(self).wf(),
            final(self).remaining() == old(self).remaining(),
            match r {
                Some(s) => lex_chars(old(self).remaining()).len() >= count && s@ == lex_chars(
                    old(self).remaining(),
                ).take(count as int),
                None => lex_chars(old(self).remaining()).len() < count,
            },
    {
        self.buffer(count)
    }
}

impl Clone for SourceChars {
    /// An independent copy over the same unconsumed input; sound for the same
    /// reason as the byte layer's copy.
    fn clone(&self) -> (r: Self)
        ensures
            r.wf() == self.wf(),
            r.remaining() == self.remaining(),
    {
        SourceChars { source: self.source.clone() }
    }
}

/// A valid UTF-8 prefix of a byte sequence decodes to a prefix of the
/// sequence's characters.
proof fn lemma_lex_prefix_of_lex(bytes: Seq<u8>, m: int)
    requires
        0 <= m <= bytes.len(),
        valid_utf8(bytes.take(m)),
    ensures
        lex_chars(bytes).len() >= decode_utf8(bytes.take(m)).len(),
        lex_chars(bytes).take(decode_utf8(bytes.take(m)).len() as int) == decode_utf8(
            bytes.take(m),
        ),
    decreases m,
{
    lemma_lex_chars_unfold(bytes);
    let p = bytes.take(m);
    if m == 0 {
        assert(decode_utf8(p) =~= Seq::<char>::empty());
        assert(lex_chars(bytes).take(0) =~= decode_utf8(p));
    } else {
        assert(p.len() > 0);
        assert(valid_first_scalar(p));
        assert(p =~= bytes.take(p.len() as int));
        lemma_first_scalar_prefix(p, bytes);
        let w = length_of_first_scalar(bytes);
        let rest = bytes.skip(w);
        assert(pop_first_scalar(bytes) =~= rest);
        assert(pop_first_scalar(p) =~= rest.take(m - w));
        lemma_lex_prefix_of_lex(rest, m - w);
        assert(lex_chars(bytes).take(decode_utf8(p).len() as int) =~= decode_utf8(p));
    }
}

/// Looking ahead agrees with consuming: when `look(n)` returns a view of the
/// next `n` unconsumed bytes, consuming `n` bytes one at a time yields exactly
/// the bytes of that view, in order. `look` returns `remaining.take(n)` and
/// leaves `remaining` unchanged, and the `i`-th of `n` subsequent `next` calls
/// returns the front of `remaining.skip(i)`; those are the same bytes.
pub proof fn lemma_look_consume_agree(remaining: Seq<u8>, n: int)
    requires
        0 <= n <= remaining.len(),
    ensures
        forall|i: int|
            0 <= i < n ==> remaining.take(n)[i] == #[trigger] remaining.skip(i)[0],
{
}

/// Looking ahead is idempotent: a second `look` with the same or a smaller
/// count returns a prefix-equal view. `look` leaves `remaining` unchanged, so
/// this says that the `m`-byte view is a prefix of the `n`-byte view.
pub proof fn lemma_look_idempotent(remaining: Seq<u8>, m: int, n: int)
    requires
        0 <= m <= n <= remaining.len(),
    ensures
        remaining.take(n).take(m) == remaining.take(m),
{
    assert(remaining.take(n).take(m) =~= remaining.take(m));
}

/// Peeking a byte is idempotent: `peek` leaves the unconsumed input unchanged
/// and returns `peeked_byte` of it alone, so two consecutive peeks with no
/// consuming call between them return equal values.
pub proof fn lemma_byte_peek_idempotent(remaining: Seq<u8>, r1: Option<u8>, r2: Option<u8>)
    requires
        r1 == peeked_byte(remaining),
        r2 == peeked_byte(remaining),
    ensures
        r1 == r2,
{
}

/// Peeking a character is idempotent: `peek` leaves the unconsumed input
/// unchanged and returns `peeked_char` of it alone, so two consecutive peeks
/// with no consuming call between them return equal values.
pub proof fn lemma_char_peek_idempotent(remaining: Seq<u8>, r1: Option<char>, r2: Option<char>)
    requires
        r1 == peeked_char(remaining),
        r2 == peeked_char(remaining),
    ensures
        r1 == r2,
{
}

/// Character-level lookahead agrees with decoding: when `look(n)` returns the
/// next `n` characters, decoding `n` characters one at a time yields exactly
/// those characters, in order. `look` returns `lex_chars(remaining).take(n)`
/// and leaves `remaining` unchanged, and the `i`-th of `n` subsequent `next`
/// calls returns the first character left after `i` scalars were decoded.
pub proof fn lemma_char_look_consume_agree(remaining: Seq<u8>, n: int)
    requires
        0 <= n <= lex_chars(remaining).len(),
    ensures
        forall|i: int|
            0 <= i < n ==> lex_chars(remaining).take(n)[i] == lex_chars(
                #[trigger] pop_scalars(remaining, i as nat),
            )[0],
{
    assert forall|i: int| 0 <= i < n implies lex_chars(remaining).take(n)[i] == lex_chars(
        pop_scalars(remaining, i as nat),
    )[0] by {
        lemma_pop_scalars_lex(remaining, i as nat);
    }
}

/// Character-level lookahead is idempotent: a second `look` with the same or
/// a smaller count returns a prefix-equal view of the same characters.
pub proof fn lemma_char_look_idempotent(remaining: Seq<u8>, m: int, n: int)
    requires
        0 <= m <= n <= lex_chars(remaining).len(),
    ensures
        lex_chars(remaining).take(n).take(m) == lex_chars(remaining).take(m),
{
    assert(lex_chars(remaining).take(n).take(m) =~= lex_chars(remaining).take(m));
}

} // verus!
