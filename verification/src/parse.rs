//! The cursor over an immutable input buffer and the primitive token
//! scanners that operate on it.

use vstd::prelude::*;
use vstd::slice::{slice_subrange, slice_to_vec};
use vstd::string::StringSliceAdditionalSpecFns;
use vstd::utf8::{decode_utf8, encode_utf8_decode_utf8, is_ascii_chars, is_scalar, valid_utf8};

use crate::chars::{
    digit_byte, digits_val, ident_byte, ident_first_byte, float_byte, is_digit_byte,
    is_float_byte, is_ident_byte, is_ident_first_byte, is_string_break_byte, is_whitespace_byte,
    lemma_digits_val_push, lemma_prefix_len_is, lemma_prefix_len_le, prefix_len,
    string_break_byte, whitespace_byte,
};
use crate::error::Error;
use crate::escape::{
    bytes_to_str, esc_of, hex4_of, hex_val, is_hex_byte, lemma_esc_used,
    lemma_scan_close, lemma_scan_continue, lemma_scan_enter, lemma_scan_escape, lemma_scan_short,
    not_break_pred, push_scalar_utf8, resume, str_content, Esc, Hex4, StrScan,
};

verus! {

/// Line number (1-based) of the next unread byte, after `consumed` bytes
/// have been read: one more than the number of newlines consumed.
pub open spec fn line_after(consumed: Seq<u8>) -> nat
    decreases consumed.len(),
{
    if consumed.len() == 0 {
        1
    } else if consumed.last() == 10 {
        line_after(consumed.drop_last()) + 1
    } else {
        line_after(consumed.drop_last())
    }
}

/// Column number (1-based) of the next unread byte, after `consumed` bytes
/// have been read: one more than the number of bytes since the last newline.
pub open spec fn column_after(consumed: Seq<u8>) -> nat
    decreases consumed.len(),
{
    if consumed.len() == 0 {
        1
    } else if consumed.last() == 10 {
        1
    } else {
        column_after(consumed.drop_last()) + 1
    }
}

/// Line and column stay within one past the number of consumed bytes.
proof fn lemma_position_bounds(s: Seq<u8>)
    ensures
        1 <= line_after(s) <= s.len() + 1,
        1 <= column_after(s) <= s.len() + 1,
    decreases s.len(),
{
    if s.len() > 0 {
        lemma_position_bounds(s.drop_last());
    }
}

/// `prefix` is an initial run of `s`.
pub open spec fn starts_with(s: Seq<u8>, prefix: Seq<u8>) -> bool {
    prefix.len() <= s.len() && s.take(prefix.len() as int) == prefix
}

/// The bytes of the literal `true`.
pub open spec fn true_bytes() -> Seq<u8> {
    seq![116u8, 114u8, 117u8, 101u8]
}

/// The bytes of the literal `false`.
pub open spec fn false_bytes() -> Seq<u8> {
    seq![102u8, 97u8, 108u8, 115u8, 101u8]
}

/// The whitespace byte class as a predicate value, for prefix lengths.
pub open spec fn whitespace_pred() -> spec_fn(u8) -> bool {
    |b: u8| is_whitespace_byte(b)
}

/// Membership in a given byte set, as a predicate value.
pub open spec fn contained_pred(allowed: Seq<u8>) -> spec_fn(u8) -> bool {
    |b: u8| allowed.contains(b)
}

/// The identifier byte class as a predicate value.
pub open spec fn ident_pred() -> spec_fn(u8) -> bool {
    |b: u8| is_ident_byte(b)
}

/// The decimal digit byte class as a predicate value.
pub open spec fn digit_pred() -> spec_fn(u8) -> bool {
    |b: u8| is_digit_byte(b)
}

/// The float-token byte class as a predicate value.
pub open spec fn float_pred() -> spec_fn(u8) -> bool {
    |b: u8| is_float_byte(b)
}

/// A well-shaped character literal stands at the head of `s`: a quote,
/// one byte (or a backslash followed by a backslash or quote), a quote.
pub open spec fn char_token_ok(s: Seq<u8>) -> bool {
    &&& s.len() >= 1 && s[0] == 39
    &&& if s.len() >= 2 && s[1] == 92 {
        s.len() >= 4 && (s[2] == 92 || s[2] == 39) && s[3] == 39
    } else {
        s.len() >= 3 && s[2] == 39
    }
}

/// The byte value of a well-shaped character literal at the head of `s`.
pub open spec fn char_token_val(s: Seq<u8>) -> u8
    recommends
        char_token_ok(s),
{
    if s[1] == 92 {
        s[2]
    } else {
        s[1]
    }
}

/// How many bytes a well-shaped character literal at the head of `s` spans.
pub open spec fn char_token_used(s: Seq<u8>) -> int
    recommends
        char_token_ok(s),
{
    if s[1] == 92 {
        4
    } else {
        3
    }
}

/// Which failure a malformed character literal at the head of `s` reports.
pub open spec fn char_token_err(s: Seq<u8>) -> Error
    recommends
        !char_token_ok(s),
{
    if s.len() == 0 || s[0] != 39 {
        Error::ExpectedChar
    } else if s.len() == 1 {
        Error::Eof
    } else if s[1] == 92 {
        if s.len() == 2 {
            Error::Eof
        } else if s[2] != 92 && s[2] != 39 {
            Error::InvalidEscape
        } else {
            Error::ExpectedChar
        }
    } else {
        Error::ExpectedChar
    }
}

/// A snapshot of the cursor's line/column position, for diagnostics.
#[derive(Clone, Copy, Debug, PartialEq, Eq, Structural)]
pub struct Position {
    pub col: usize,
    pub line: usize,
}

/// The scanner cursor: a borrowed view of the remaining input plus the
/// 1-based line/column of the next unread byte.  It is a plain value and
/// may be cheaply duplicated for speculative scans.
#[derive(Clone, Copy, Debug)]
pub struct Bytes<'a> {
    /// The complete input buffer.
    pub buf: &'a [u8],
    /// How many bytes of `buf` have been consumed.
    pub pos: usize,
    /// Column of the next unread byte, starting at 1.
    pub column: usize,
    /// Line of the next unread byte, starting at 1.
    pub line: usize,
}

impl<'a> Bytes<'a> {
    /// The whole input buffer the cursor was created over.
    pub open spec fn input(self) -> Seq<u8> {
        self.buf@
    }

    /// The bytes consumed so far.
    pub open spec fn consumed(self) -> Seq<u8> {
        self.buf@.take(self.pos as int)
    }

    /// The unread bytes.
    pub open spec fn remaining(self) -> Seq<u8> {
        self.buf@.skip(self.pos as int)
    }

    /// Cursor well-formedness: the position is inside the buffer and
    /// line/column describe exactly the bytes consumed so far.
    pub open spec fn wf(self) -> bool {
        &&& self.pos <= self.buf@.len()
        &&& self.buf@.len() < usize::MAX
        &&& self.line == line_after(self.consumed())
        &&& self.column == column_after(self.consumed())
    }

    /// Creates a cursor at the start of `bytes`, at line 1, column 1.
    pub fn new(bytes: &'a [u8]) -> (r: Bytes<'a>)
        requires
            bytes@.len() < usize::MAX,
        ensures
            r.wf(),
            r.input() == bytes@,
            r.remaining() == bytes@,
            r.line == 1,
            r.column == 1,
    {
        let r = Bytes { buf: bytes, pos: 0, column: 1, line: 1 };
        proof {
            assert(r.consumed() =~= Seq::<u8>::empty());
            assert(r.remaining() =~= bytes@);
        }
        r
    }

    /// The next unread byte, if any; never consumes.
    pub fn peek(&self) -> (r: Option<u8>)
        requires
            self.wf(),
        ensures
            self.remaining().len() == 0 ==> r is None,
            self.remaining().len() > 0 ==> r == Some(self.remaining()[0]),
    {
        if self.pos < self.buf.len() {
            Some(self.buf[self.pos])
        } else {
            None
        }
    }

    /// The current line/column snapshot.
    pub fn position(&self) -> (p: Position)
        ensures
            p.line == self.line,
            p.col == self.column,
    {
        Position { col: self.column, line: self.line }
    }

    /// Read-only lookahead: the unconsumed input.
    pub fn bytes(&self) -> (r: &'a [u8])
        requires
            self.wf(),
        ensures
            r@ == self.remaining(),
    {
        slice_subrange(self.buf, self.pos, self.buf.len())
    }

    /// Consumes exactly one byte, updating line/column; fails with `Eof`
    /// and leaves the cursor unchanged when no bytes remain.
    pub fn advance_single(&mut self) -> (r: Result<(), Error>)
        requires
            old(self).wf(),
        ensures
            final(self).wf(),
            final(self).input() == old(self).input(),
            match r {
                Ok(()) => {
                    &&& old(self).remaining().len() > 0
                    &&& final(self).remaining() == old(self).remaining().skip(1)
                    &&& final(self).consumed() == old(self).consumed().push(
                        old(self).remaining()[0],
                    )
                    &&& (old(self).remaining()[0] == 10 ==> final(self).line == old(self).line
                        + 1 && final(self).column == 1)
                    &&& (old(self).remaining()[0] != 10 ==> final(self).line == old(self).line
                        && final(self).column == old(self).column + 1)
                },
                Err(e) => {
                    &&& e == Error::Eof
                    &&& old(self).remaining().len() == 0
                    &&& *final(self) == *old(self)
                },
            },
    {
        if self.pos < self.buf.len() {
            let b = self.buf[self.pos];
            proof {
                lemma_position_bounds(self.consumed());
            }
            if b == 10 {
                self.line = self.line + 1;
                self.column = 1;
            } else {
                self.column = self.column + 1;
            }
            let ghost pre = *old(self);
            self.pos = self.pos + 1;
            proof {
                assert(self.consumed() =~= pre.consumed().push(pre.remaining()[0]));
                assert(self.consumed().drop_last() =~= pre.consumed());
                assert(self.remaining() =~= pre.remaining().skip(1));
            }
            Ok(())
        } else {
            proof {
                assert(self.remaining().len() == 0);
            }
            Err(Error::Eof)
        }
    }

    /// Consumes exactly `bytes` bytes; fails with `Eof` when fewer remain
    /// (the position after a failed advance is unspecified).
    pub fn advance(&mut self, bytes: usize) -> (r: Result<(), Error>)
        requires
            old(self).wf(),
        ensures
            final(self).wf(),
            final(self).input() == old(self).input(),
            r is Ok <==> bytes <= old(self).remaining().len(),
            r is Ok ==> final(self).remaining() == old(self).remaining().skip(bytes as int)
                && final(self).consumed() == old(self).consumed() + old(self).remaining().take(
                bytes as int,
            ),
            r is Err ==> r == Err::<(), Error>(Error::Eof),
    {
        let mut k: usize = 0;
        while k < bytes
            invariant
                self.wf(),
                self.input() == old(self).input(),
                k <= bytes,
                k <= old(self).remaining().len(),
                self.remaining() == old(self).remaining().skip(k as int),
                self.consumed() == old(self).consumed() + old(self).remaining().take(k as int),
            decreases bytes - k,
        {
            let ghost pre = *self;
            match self.advance_single() {
                Ok(()) => {},
                Err(e) => {
                    proof {
                        assert(old(self).remaining().len() == k);
                    }
                    return Err(e);
                },
            }
            proof {
                assert(self.remaining() =~= old(self).remaining().skip(k + 1));
                assert(old(self).remaining().take(k + 1) =~= old(self).remaining().take(
                    k as int,
                ).push(old(self).remaining()[k as int]));
                assert(self.consumed() =~= old(self).consumed() + old(self).remaining().take(
                    k + 1,
                ));
            }
            k = k + 1;
        }
        Ok(())
    }

    /// Consumes and returns one byte, failing with `Eof` if none remain.
    pub fn eat_byte(&mut self) -> (r: Result<u8, Error>)
        requires
            old(self).wf(),
        ensures
            final(self).wf(),
            final(self).input() == old(self).input(),
            match r {
                Ok(b) => {
                    &&& old(self).remaining().len() > 0
                    &&& b == old(self).remaining()[0]
                    &&& final(self).remaining() == old(self).remaining().skip(1)
                    &&& final(self).consumed() == old(self).consumed().push(b)
                },
                Err(e) => {
                    &&& e == Error::Eof
                    &&& old(self).remaining().len() == 0
                    &&& *final(self) == *old(self)
                },
            },
    {
        match self.peek() {
            Some(b) => {
                let _ = self.advance_single();
                Ok(b)
            },
            None => Err(Error::Eof),
        }
    }

    /// Matches an ASCII literal byte-for-byte against the upcoming input.
    /// On any mismatch nothing is consumed and `false` is returned; only a
    /// full match consumes the literal's bytes and returns `true`.
    pub fn consume(&mut self, s: &str) -> (r: bool)
        requires
            old(self).wf(),
        ensures
            final(self).wf(),
            final(self).input() == old(self).input(),
            r == starts_with(old(self).remaining(), s.spec_bytes()),
            r ==> final(self).remaining() == old(self).remaining().skip(
                s.spec_bytes().len() as int,
            ) && final(self).consumed() == old(self).consumed() + s.spec_bytes(),
            !r ==> *final(self) == *old(self),
    {
        let bs = s.as_bytes();
        let n = bs.len();
        if n > self.buf.len() - self.pos {
            proof {
                assert(!starts_with(self.remaining(), s.spec_bytes()));
            }
            return false;
        }
        let mut i: usize = 0;
        while i < n
            invariant
                self == old(self),
                self.wf(),
                i <= n,
                n <= self.remaining().len(),
                bs@ == s.spec_bytes(),
                n == bs@.len(),
                forall|j: int| 0 <= j < i ==> self.remaining()[j] == bs@[j],
            decreases n - i,
        {
            if self.buf[self.pos + i] != bs[i] {
                proof {
                    assert(self.remaining()[i as int] != s.spec_bytes()[i as int]);
                    assert(!starts_with(self.remaining(), s.spec_bytes()));
                }
                return false;
            }
            proof {
                assert(self.remaining()[i as int] == self.buf@[self.pos + i]);
            }
            i = i + 1;
        }
        proof {
            assert(self.remaining().take(n as int) =~= s.spec_bytes());
        }
        let _ = self.advance(n);
        true
    }

    /// Consumes the maximal run of whitespace bytes; never fails.
    pub fn skip_ws(&mut self)
        requires
            old(self).wf(),
        ensures
            final(self).wf(),
            final(self).input() == old(self).input(),
            final(self).remaining() == old(self).remaining().skip(
                prefix_len(old(self).remaining(), whitespace_pred()) as int,
            ),
            final(self).consumed() == old(self).consumed() + old(self).remaining().take(
                prefix_len(old(self).remaining(), whitespace_pred()) as int,
            ),
    {
        let ghost orig = old(self).remaining();
        let mut k: usize = 0;
        loop
            invariant
                self.wf(),
                self.input() == old(self).input(),
                k <= orig.len(),
                orig == old(self).remaining(),
                self.remaining() == orig.skip(k as int),
                self.consumed() == old(self).consumed() + orig.take(k as int),
                forall|j: int| 0 <= j < k ==> is_whitespace_byte(orig[j]),
            ensures
                self.wf(),
                self.input() == old(self).input(),
                k <= orig.len(),
                self.remaining() == orig.skip(k as int),
                self.consumed() == old(self).consumed() + orig.take(k as int),
                forall|j: int| 0 <= j < k ==> is_whitespace_byte(orig[j]),
                k == orig.len() || !is_whitespace_byte(orig[k as int]),
            decreases orig.len() - k,
        {
            let stop = match self.peek() {
                Some(b) => !whitespace_byte(b),
                None => true,
            };
            if stop {
                proof {
                    if k < orig.len() {
                        assert(orig[k as int] == self.remaining()[0]);
                    }
                }
                break;
            }
            let ghost pre = *self;
            let _ = self.advance_single();
            proof {
                assert(self.remaining() =~= orig.skip(k + 1));
                assert(orig.take(k + 1) =~= orig.take(k as int).push(orig[k as int]));
                assert(self.consumed() =~= old(self).consumed() + orig.take(k + 1));
            }
            k = k + 1;
        }
        proof {
            lemma_prefix_len_is(orig, whitespace_pred(), k as int);
        }
    }

    /// If the next byte is a comma, consumes it and any following
    /// whitespace and returns `true`; otherwise consumes nothing.
    pub fn comma(&mut self) -> (r: bool)
        requires
            old(self).wf(),
        ensures
            final(self).wf(),
            final(self).input() == old(self).input(),
            r == (old(self).remaining().len() > 0 && old(self).remaining()[0] == 44),
            r ==> final(self).remaining() == old(self).remaining().skip(
                1 + prefix_len(old(self).remaining().skip(1), whitespace_pred()) as int,
            ),
            !r ==> *final(self) == *old(self),
    {
        let go = match self.peek() {
            Some(b) => b == 44,
            None => false,
        };
        if go {
            let ghost pre = *self;
            let _ = self.advance_single();
            self.skip_ws();
            proof {
                let tail = old(self).remaining().skip(1);
                let w = prefix_len(tail, whitespace_pred()) as int;
                lemma_prefix_len_le(tail, whitespace_pred());
                assert(tail.skip(w) =~= old(self).remaining().skip(1 + w));
            }
            true
        } else {
            false
        }
    }

    /// Length of the maximal upcoming run of bytes drawn from `allowed`.
    pub fn next_bytes_contained_in(&self, allowed: &[u8]) -> (r: usize)
        requires
            self.wf(),
        ensures
            r == prefix_len(self.remaining(), contained_pred(allowed@)),
    {
        let mut i: usize = 0;
        loop
            invariant
                self.wf(),
                i <= self.remaining().len(),
                forall|j: int| 0 <= j < i ==> contained_pred(allowed@)(self.remaining()[j]),
            ensures
                i <= self.remaining().len(),
                forall|j: int| 0 <= j < i ==> contained_pred(allowed@)(self.remaining()[j]),
                i == self.remaining().len() || !contained_pred(allowed@)(
                    self.remaining()[i as int],
                ),
            decreases self.remaining().len() - i,
        {
            let stop = if self.pos + i < self.buf.len() {
                !slice_contains(allowed, self.buf[self.pos + i])
            } else {
                true
            };
            if stop {
                proof {
                    if i < self.remaining().len() {
                        assert(self.remaining()[i as int] == self.buf@[self.pos + i]);
                    }
                }
                break;
            }
            proof {
                assert(self.remaining()[i as int] == self.buf@[self.pos + i]);
            }
            i = i + 1;
        }
        proof {
            lemma_prefix_len_is(self.remaining(), contained_pred(allowed@), i as int);
        }
        i
    }

    /// Matches the literal `true` or `false`; on anything else fails with
    /// `ExpectedBoolean` and consumes nothing.
    #[allow(clippy::should_implement_trait)]
    pub fn bool(&mut self) -> (r: Result<bool, Error>)
        requires
            old(self).wf(),
        ensures
            final(self).wf(),
            final(self).input() == old(self).input(),
            match r {
                Ok(b) => {
                    if b {
                        &&& starts_with(old(self).remaining(), true_bytes())
                        &&& final(self).remaining() == old(self).remaining().skip(4)
                    } else {
                        &&& !starts_with(old(self).remaining(), true_bytes())
                        &&& starts_with(old(self).remaining(), false_bytes())
                        &&& final(self).remaining() == old(self).remaining().skip(5)
                    }
                },
                Err(e) => {
                    &&& e == Error::ExpectedBoolean
                    &&& !starts_with(old(self).remaining(), true_bytes())
                    &&& !starts_with(old(self).remaining(), false_bytes())
                    &&& *final(self) == *old(self)
                },
            },
    {
        proof {
            lemma_bool_literal_bytes();
        }
        if self.consume("true") {
            Ok(true)
        } else if self.consume("false") {
            Ok(false)
        } else {
            Err(Error::ExpectedBoolean)
        }
    }

    /// Scans a character literal: a quoted single byte, where only `\\`
    /// and `\'` are legal escapes.  The byte is reinterpreted as a
    /// Latin-1 code point; multi-byte UTF-8 characters are not supported
    /// by this token.
    #[allow(clippy::should_implement_trait)]
    pub fn char(&mut self) -> (r: Result<char, Error>)
        requires
            old(self).wf(),
        ensures
            final(self).wf(),
            final(self).input() == old(self).input(),
            match r {
                Ok(c) => {
                    &&& char_token_ok(old(self).remaining())
                    &&& c == char_token_val(old(self).remaining()) as char
                    &&& final(self).remaining() == old(self).remaining().skip(
                        char_token_used(old(self).remaining()),
                    )
                },
                Err(e) => {
                    &&& !char_token_ok(old(self).remaining())
                    &&& e == char_token_err(old(self).remaining())
                    &&& (old(self).remaining().len() == 0 || old(self).remaining()[0] != 39
                        ==> *final(self) == *old(self))
                },
            },
    {
        let ghost s = old(self).remaining();
        let open = match self.peek() {
            Some(b) => b,
            None => {
                return Err(Error::ExpectedChar);
            },
        };
        if open != 39 {
            return Err(Error::ExpectedChar);
        }
        let _ = self.advance_single();
        let first = match self.eat_byte() {
            Ok(b) => b,
            Err(e) => {
                return Err(e);
            },
        };
        proof {
            assert(self.remaining() =~= s.skip(2));
        }
        let c = if first == 92 {
            let esc = match self.eat_byte() {
                Ok(b) => b,
                Err(e) => {
                    return Err(e);
                },
            };
            if esc != 92 && esc != 39 {
                return Err(Error::InvalidEscape);
            }
            proof {
                assert(self.remaining() =~= s.skip(3));
            }
            esc
        } else {
            first
        };
        let close = match self.peek() {
            Some(b) => b,
            None => {
                return Err(Error::ExpectedChar);
            },
        };
        if close != 39 {
            return Err(Error::ExpectedChar);
        }
        let _ = self.advance_single();
        proof {
            if first == 92 {
                assert(self.remaining() =~= s.skip(4));
            } else {
                assert(self.remaining() =~= s.skip(3));
            }
        }
        Ok(c as char)
    }

    /// Scans an identifier: a letter or underscore followed by the maximal
    /// run of letters, underscores and digits, returned as a borrowed span.
    pub fn identifier(&mut self) -> (r: Result<&'a [u8], Error>)
        requires
            old(self).wf(),
        ensures
            final(self).wf(),
            final(self).input() == old(self).input(),
            match r {
                Ok(id) => {
                    &&& old(self).remaining().len() > 0
                    &&& is_ident_first_byte(old(self).remaining()[0])
                    &&& id@ == old(self).remaining().take(
                        prefix_len(old(self).remaining(), ident_pred()) as int,
                    )
                    &&& final(self).remaining() == old(self).remaining().skip(
                        prefix_len(old(self).remaining(), ident_pred()) as int,
                    )
                },
                Err(e) => {
                    &&& *final(self) == *old(self)
                    &&& !(old(self).remaining().len() > 0 && is_ident_first_byte(
                        old(self).remaining()[0],
                    ))
                    &&& e == (if old(self).remaining().len() == 0 {
                        Error::Eof
                    } else {
                        Error::ExpectedIdentifier
                    })
                },
            },
    {
        let first = match self.peek() {
            Some(b) => b,
            None => {
                return Err(Error::Eof);
            },
        };
        if !ident_first_byte(first) {
            return Err(Error::ExpectedIdentifier);
        }
        let n = self.scan_ident_len();
        let id = slice_subrange(self.buf, self.pos, self.pos + n);
        proof {
            assert(id@ =~= self.remaining().take(n as int));
        }
        let _ = self.advance(n);
        Ok(id)
    }

    /// Length of the maximal upcoming identifier run.
    fn scan_ident_len(&self) -> (n: usize)
        requires
            self.wf(),
        ensures
            n == prefix_len(self.remaining(), ident_pred()),
            n <= self.remaining().len(),
    {
        let mut i: usize = 0;
        loop
            invariant
                self.wf(),
                i <= self.remaining().len(),
                forall|j: int| 0 <= j < i ==> is_ident_byte(self.remaining()[j]),
            ensures
                i <= self.remaining().len(),
                forall|j: int| 0 <= j < i ==> is_ident_byte(self.remaining()[j]),
                i == self.remaining().len() || !is_ident_byte(self.remaining()[i as int]),
            decreases self.remaining().len() - i,
        {
            let stop = if self.pos + i < self.buf.len() {
                !ident_byte(self.buf[self.pos + i])
            } else {
                true
            };
            if stop {
                proof {
                    if i < self.remaining().len() {
                        assert(self.remaining()[i as int] == self.buf@[self.pos + i]);
                    }
                }
                break;
            }
            proof {
                assert(self.remaining()[i as int] == self.buf@[self.pos + i]);
            }
            i = i + 1;
        }
        proof {
            lemma_prefix_len_is(self.remaining(), ident_pred(), i as int);
        }
        i
    }

    /// Scans a maximal digit run and parses it as a decimal `u64`.
    /// The cursor advances past the digits even when their value does not
    /// fit, in which case `ExpectedInteger` is reported.
    pub fn unsigned_integer(&mut self) -> (r: Result<u64, Error>)
        requires
            old(self).wf(),
        ensures
            final(self).wf(),
            final(self).input() == old(self).input(),
            ({
                let s = old(self).remaining();
                let k = prefix_len(s, digit_pred()) as int;
                match r {
                    Ok(v) => {
                        &&& k >= 1
                        &&& digits_val(s.take(k)) <= u64::MAX
                        &&& v == digits_val(s.take(k))
                        &&& final(self).remaining() == s.skip(k)
                    },
                    Err(e) => {
                        if k == 0 {
                            &&& e == Error::Eof
                            &&& *final(self) == *old(self)
                        } else {
                            &&& e == Error::ExpectedInteger
                            &&& digits_val(s.take(k)) > u64::MAX
                            &&& final(self).remaining() == s.skip(k)
                        }
                    },
                }
            }),
    {
        let ghost s = self.remaining();
        let mut n: usize = 0;
        let mut val: u64 = 0;
        let mut over: bool = false;
        loop
            invariant
                self.wf(),
                *self == *old(self),
                s == self.remaining(),
                n <= s.len(),
                forall|j: int| 0 <= j < n ==> is_digit_byte(s[j]),
                !over ==> val == digits_val(s.take(n as int)),
                over ==> digits_val(s.take(n as int)) > u64::MAX,
            ensures
                n <= s.len(),
                forall|j: int| 0 <= j < n ==> is_digit_byte(s[j]),
                n == s.len() || !is_digit_byte(s[n as int]),
                !over ==> val == digits_val(s.take(n as int)),
                over ==> digits_val(s.take(n as int)) > u64::MAX,
            decreases s.len() - n,
        {
            let stop = if self.pos + n < self.buf.len() {
                !digit_byte(self.buf[self.pos + n])
            } else {
                true
            };
            proof {
                if n < s.len() {
                    assert(s[n as int] == self.buf@[self.pos + n]);
                }
            }
            if stop {
                break;
            }
            let d = self.buf[self.pos + n] - 48;
            proof {
                lemma_digits_val_push(s.take(n as int), s[n as int]);
                assert(s.take(n + 1).drop_last() =~= s.take(n as int));
                assert(s.take(n + 1) =~= s.take(n as int).push(s[n as int]));
            }
            if !over {
                let next = match val.checked_mul(10) {
                    Some(v10) => v10.checked_add(d as u64),
                    None => None,
                };
                match next {
                    Some(v) => {
                        val = v;
                    },
                    None => {
                        over = true;
                    },
                }
            }
            n = n + 1;
        }
        proof {
            lemma_prefix_len_is(s, digit_pred(), n as int);
        }
        if n == 0 {
            return Err(Error::Eof);
        }
        let _ = self.advance(n);
        if over {
            Err(Error::ExpectedInteger)
        } else {
            Ok(val)
        }
    }

    /// Like [`Self::unsigned_integer`], for the `u8` width.
    pub fn unsigned_integer_u8(&mut self) -> (r: Result<u8, Error>)
        requires
            old(self).wf(),
        ensures
            final(self).wf(),
            final(self).input() == old(self).input(),
            ({
                let s = old(self).remaining();
                let k = prefix_len(s, digit_pred()) as int;
                match r {
                    Ok(v) => {
                        &&& k >= 1
                        &&& v == digits_val(s.take(k))
                        &&& final(self).remaining() == s.skip(k)
                    },
                    Err(e) => {
                        if k == 0 {
                            &&& e == Error::Eof
                            &&& *final(self) == *old(self)
                        } else {
                            &&& e == Error::ExpectedInteger
                            &&& digits_val(s.take(k)) > u8::MAX
                            &&& final(self).remaining() == s.skip(k)
                        }
                    },
                }
            }),
    {
        match self.unsigned_integer() {
            Ok(v) => {
                if v <= u8::MAX as u64 {
                    Ok(v as u8)
                } else {
                    Err(Error::ExpectedInteger)
                }
            },
            Err(e) => Err(e),
        }
    }

    /// Like [`Self::unsigned_integer`], for the `u16` width.
    pub fn unsigned_integer_u16(&mut self) -> (r: Result<u16, Error>)
        requires
            old(self).wf(),
        ensures
            final(self).wf(),
            final(self).input() == old(self).input(),
            ({
                let s = old(self).remaining();
                let k = prefix_len(s, digit_pred()) as int;
                match r {
                    Ok(v) => {
                        &&& k >= 1
                        &&& v == digits_val(s.take(k))
                        &&& final(self).remaining() == s.skip(k)
                    },
                    Err(e) => {
                        if k == 0 {
                            &&& e == Error::Eof
                            &&& *final(self) == *old(self)
                        } else {
                            &&& e == Error::ExpectedInteger
                            &&& digits_val(s.take(k)) > u16::MAX
                            &&& final(self).remaining() == s.skip(k)
                        }
                    },
                }
            }),
    {
        match self.unsigned_integer() {
            Ok(v) => {
                if v <= u16::MAX as u64 {
                    Ok(v as u16)
                } else {
                    Err(Error::ExpectedInteger)
                }
            },
            Err(e) => Err(e),
        }
    }

    /// Like [`Self::unsigned_integer`], for the `u32` width.
    pub fn unsigned_integer_u32(&mut self) -> (r: Result<u32, Error>)
        requires
            old(self).wf(),
        ensures
            final(self).wf(),
            final(self).input() == old(self).input(),
            ({
                let s = old(self).remaining();
                let k = prefix_len(s, digit_pred()) as int;
                match r {
                    Ok(v) => {
                        &&& k >= 1
                        &&& v == digits_val(s.take(k))
                        &&& final(self).remaining() == s.skip(k)
                    },
                    Err(e) => {
                        if k == 0 {
                            &&& e == Error::Eof
                            &&& *final(self) == *old(self)
                        } else {
                            &&& e == Error::ExpectedInteger
                            &&& digits_val(s.take(k)) > u32::MAX
                            &&& final(self).remaining() == s.skip(k)
                        }
                    },
                }
            }),
    {
        match self.unsigned_integer() {
            Ok(v) => {
                if v <= u32::MAX as u64 {
                    Ok(v as u32)
                } else {
                    Err(Error::ExpectedInteger)
                }
            },
            Err(e) => Err(e),
        }
    }

    /// Scans an optionally signed decimal integer: a leading `+` or `-`
    /// is consumed and the digit run is parsed and, for `-`, negated.
    pub fn signed_integer(&mut self) -> (r: Result<i64, Error>)
        requires
            old(self).wf(),
        ensures
            final(self).wf(),
            final(self).input() == old(self).input(),
            ({
                let s = old(self).remaining();
                if s.len() == 0 {
                    r == Err::<i64, Error>(Error::Eof) && *final(self) == *old(self)
                } else {
                    let neg = s[0] == 45;
                    let signed = s[0] == 45 || s[0] == 43;
                    let t = if signed {
                        s.skip(1)
                    } else {
                        s
                    };
                    let k = prefix_len(t, digit_pred()) as int;
                    let m = digits_val(t.take(k));
                    if k == 0 {
                        r == Err::<i64, Error>(Error::Eof) && final(self).remaining() == t
                    } else if m <= i64::MAX {
                        &&& r == Ok::<i64, Error>(
                            if neg {
                                (-(m as int)) as i64
                            } else {
                                m as i64
                            },
                        )
                        &&& final(self).remaining() == t.skip(k)
                    } else {
                        r == Err::<i64, Error>(Error::ExpectedInteger) && final(self).remaining()
                            == t.skip(k)
                    }
                }
            }),
    {
        let first = match self.peek() {
            Some(b) => b,
            None => {
                return Err(Error::Eof);
            },
        };
        if first == 43 {
            let _ = self.advance_single();
            self.signed_tail(false)
        } else if first == 45 {
            let _ = self.advance_single();
            self.signed_tail(true)
        } else {
            self.signed_tail(false)
        }
    }

    /// Like [`Self::signed_integer`], for the `i8` width.
    pub fn signed_integer_i8(&mut self) -> (r: Result<i8, Error>)
        requires
            old(self).wf(),
        ensures
            final(self).wf(),
            final(self).input() == old(self).input(),
            ({
                let s = old(self).remaining();
                if s.len() == 0 {
                    r == Err::<i8, Error>(Error::Eof) && *final(self) == *old(self)
                } else {
                    let neg = s[0] == 45;
                    let signed = s[0] == 45 || s[0] == 43;
                    let t = if signed {
                        s.skip(1)
                    } else {
                        s
                    };
                    let k = prefix_len(t, digit_pred()) as int;
                    let m = digits_val(t.take(k));
                    if k == 0 {
                        r == Err::<i8, Error>(Error::Eof) && final(self).remaining() == t
                    } else if m <= i8::MAX {
                        &&& r == Ok::<i8, Error>(
                            if neg {
                                (-(m as int)) as i8
                            } else {
                                m as i8
                            },
                        )
                        &&& final(self).remaining() == t.skip(k)
                    } else {
                        r == Err::<i8, Error>(Error::ExpectedInteger) && final(self).remaining()
                            == t.skip(k)
                    }
                }
            }),
    {
        match self.signed_integer() {
            Ok(v) => {
                if -(i8::MAX as i64) <= v && v <= i8::MAX as i64 {
                    Ok(v as i8)
                } else {
                    Err(Error::ExpectedInteger)
                }
            },
            Err(e) => Err(e),
        }
    }

    /// Like [`Self::signed_integer`], for the `i16` width.
    pub fn signed_integer_i16(&mut self) -> (r: Result<i16, Error>)
        requires
            old(self).wf(),
        ensures
            final(self).wf(),
            final(self).input() == old(self).input(),
            ({
                let s = old(self).remaining();
                if s.len() == 0 {
                    r == Err::<i16, Error>(Error::Eof) && *final(self) == *old(self)
                } else {
                    let neg = s[0] == 45;
                    let signed = s[0] == 45 || s[0] == 43;
                    let t = if signed {
                        s.skip(1)
                    } else {
                        s
                    };
                    let k = prefix_len(t, digit_pred()) as int;
                    let m = digits_val(t.take(k));
                    if k == 0 {
                        r == Err::<i16, Error>(Error::Eof) && final(self).remaining() == t
                    } else if m <= i16::MAX {
                        &&& r == Ok::<i16, Error>(
                            if neg {
                                (-(m as int)) as i16
                            } else {
                                m as i16
                            },
                        )
                        &&& final(self).remaining() == t.skip(k)
                    } else {
                        r == Err::<i16, Error>(Error::ExpectedInteger) && final(self).remaining()
                            == t.skip(k)
                    }
                }
            }),
    {
        match self.signed_integer() {
            Ok(v) => {
                if -(i16::MAX as i64) <= v && v <= i16::MAX as i64 {
                    Ok(v as i16)
                } else {
                    Err(Error::ExpectedInteger)
                }
            },
            Err(e) => Err(e),
        }
    }

    /// Like [`Self::signed_integer`], for the `i32` width.
    pub fn signed_integer_i32(&mut self) -> (r: Result<i32, Error>)
        requires
            old(self).wf(),
        ensures
            final(self).wf(),
            final(self).input() == old(self).input(),
            ({
                let s = old(self).remaining();
                if s.len() == 0 {
                    r == Err::<i32, Error>(Error::Eof) && *final(self) == *old(self)
                } else {
                    let neg = s[0] == 45;
                    let signed = s[0] == 45 || s[0] == 43;
                    let t = if signed {
                        s.skip(1)
                    } else {
                        s
                    };
                    let k = prefix_len(t, digit_pred()) as int;
                    let m = digits_val(t.take(k));
                    if k == 0 {
                        r == Err::<i32, Error>(Error::Eof) && final(self).remaining() == t
                    } else if m <= i32::MAX {
                        &&& r == Ok::<i32, Error>(
                            if neg {
                                (-(m as int)) as i32
                            } else {
                                m as i32
                            },
                        )
                        &&& final(self).remaining() == t.skip(k)
                    } else {
                        r == Err::<i32, Error>(Error::ExpectedInteger) && final(self).remaining()
                            == t.skip(k)
                    }
                }
            }),
    {
        match self.signed_integer() {
            Ok(v) => {
                if -(i32::MAX as i64) <= v && v <= i32::MAX as i64 {
                    Ok(v as i32)
                } else {
                    Err(Error::ExpectedInteger)
                }
            },
            Err(e) => Err(e),
        }
    }

    /// Parses the digit run at the cursor into an `i64` magnitude and
    /// applies the sign.
    fn signed_tail(&mut self, neg: bool) -> (r: Result<i64, Error>)
        requires
            old(self).wf(),
        ensures
            final(self).wf(),
            final(self).input() == old(self).input(),
            ({
                let t = old(self).remaining();
                let k = prefix_len(t, digit_pred()) as int;
                let m = digits_val(t.take(k));
                if k == 0 {
                    r == Err::<i64, Error>(Error::Eof) && *final(self) == *old(self)
                } else if m <= i64::MAX {
                    &&& r == Ok::<i64, Error>(
                        if neg {
                            (-(m as int)) as i64
                        } else {
                            m as i64
                        },
                    )
                    &&& final(self).remaining() == t.skip(k)
                } else {
                    r == Err::<i64, Error>(Error::ExpectedInteger) && final(self).remaining()
                        == t.skip(k)
                }
            }),
    {
        match self.unsigned_integer() {
            Ok(v) => {
                if v <= i64::MAX as u64 {
                    if neg {
                        Ok(-(v as i64))
                    } else {
                        Ok(v as i64)
                    }
                } else {
                    Err(Error::ExpectedInteger)
                }
            },
            Err(e) => Err(e),
        }
    }

    /// Scans the maximal run of float-shaped bytes (digits, `.`, `+`,
    /// `-`, `e`, `E`) and returns it as a borrowed span, advancing past
    /// it.  The run is permissive and may be empty or syntactically
    /// invalid; turning it into a numeric value is floating-point work
    /// that is left to the caller, whose parser decides `ExpectedFloat`.
    pub fn float(&mut self) -> (r: &'a [u8])
        requires
            old(self).wf(),
        ensures
            final(self).wf(),
            final(self).input() == old(self).input(),
            r@ == old(self).remaining().take(
                prefix_len(old(self).remaining(), float_pred()) as int,
            ),
            final(self).remaining() == old(self).remaining().skip(
                prefix_len(old(self).remaining(), float_pred()) as int,
            ),
    {
        let n = self.scan_float_len();
        let tok = slice_subrange(self.buf, self.pos, self.pos + n);
        proof {
            assert(tok@ =~= self.remaining().take(n as int));
        }
        let _ = self.advance(n);
        tok
    }

    /// Length of the maximal upcoming run of float-shaped bytes.
    fn scan_float_len(&self) -> (n: usize)
        requires
            self.wf(),
        ensures
            n == prefix_len(self.remaining(), float_pred()),
            n <= self.remaining().len(),
    {
        let mut i: usize = 0;
        loop
            invariant
                self.wf(),
                i <= self.remaining().len(),
                forall|j: int| 0 <= j < i ==> is_float_byte(self.remaining()[j]),
            ensures
                i <= self.remaining().len(),
                forall|j: int| 0 <= j < i ==> is_float_byte(self.remaining()[j]),
                i == self.remaining().len() || !is_float_byte(self.remaining()[i as int]),
            decreases self.remaining().len() - i,
        {
            let stop = if self.pos + i < self.buf.len() {
                !float_byte(self.buf[self.pos + i])
            } else {
                true
            };
            if stop {
                proof {
                    if i < self.remaining().len() {
                        assert(self.remaining()[i as int] == self.buf@[self.pos + i]);
                    }
                }
                break;
            }
            proof {
                assert(self.remaining()[i as int] == self.buf@[self.pos + i]);
            }
            i = i + 1;
        }
        proof {
            lemma_prefix_len_is(self.remaining(), float_pred(), i as int);
        }
        i
    }

    /// Length of the upcoming plain run of a string body, up to the
    /// first quote or backslash.
    fn scan_plain_len(&self) -> (n: usize)
        requires
            self.wf(),
        ensures
            n == prefix_len(self.remaining(), not_break_pred()),
            n <= self.remaining().len(),
            n < self.remaining().len() ==> is_string_break_byte(self.remaining()[n as int]),
    {
        let mut i: usize = 0;
        loop
            invariant
                self.wf(),
                i <= self.remaining().len(),
                forall|j: int| 0 <= j < i ==> !is_string_break_byte(self.remaining()[j]),
            ensures
                i <= self.remaining().len(),
                forall|j: int| 0 <= j < i ==> !is_string_break_byte(self.remaining()[j]),
                i == self.remaining().len() || is_string_break_byte(self.remaining()[i as int]),
            decreases self.remaining().len() - i,
        {
            let stop = if self.pos + i < self.buf.len() {
                string_break_byte(self.buf[self.pos + i])
            } else {
                true
            };
            if stop {
                proof {
                    if i < self.remaining().len() {
                        assert(self.remaining()[i as int] == self.buf@[self.pos + i]);
                    }
                }
                break;
            }
            proof {
                assert(self.remaining()[i as int] == self.buf@[self.pos + i]);
            }
            i = i + 1;
        }
        proof {
            lemma_prefix_len_is(self.remaining(), not_break_pred(), i as int);
        }
        i
    }

    /// Reads four hex digits as a UTF-16 code unit, eating bytes one at
    /// a time: the first missing byte fails with `Eof`, the first
    /// non-hex byte with `InvalidEscape`.
    fn decode_hex_escape(&mut self) -> (r: Result<u16, Error>)
        requires
            old(self).wf(),
        ensures
            final(self).wf(),
            final(self).input() == old(self).input(),
            match r {
                Ok(n) => {
                    &&& hex4_of(old(self).remaining()) == Hex4::Value(n as nat)
                    &&& final(self).remaining() == old(self).remaining().skip(4)
                },
                Err(e) => {
                    &&& !(hex4_of(old(self).remaining()) is Value)
                    &&& e == (if hex4_of(old(self).remaining()) is Short {
                        Error::Eof
                    } else {
                        Error::InvalidEscape
                    })
                },
            },
    {
        let ghost t = self.remaining();
        let b0 = match self.eat_byte() {
            Ok(b) => b,
            Err(e) => {
                return Err(e);
            },
        };
        let h0 = match hex_nibble(b0) {
            Some(v) => v,
            None => {
                return Err(Error::InvalidEscape);
            },
        };
        let b1 = match self.eat_byte() {
            Ok(b) => b,
            Err(e) => {
                return Err(e);
            },
        };
        proof {
            assert(self.remaining() =~= t.skip(2));
        }
        let h1 = match hex_nibble(b1) {
            Some(v) => v,
            None => {
                return Err(Error::InvalidEscape);
            },
        };
        let b2 = match self.eat_byte() {
            Ok(b) => b,
            Err(e) => {
                return Err(e);
            },
        };
        proof {
            assert(self.remaining() =~= t.skip(3));
        }
        let h2 = match hex_nibble(b2) {
            Some(v) => v,
            None => {
                return Err(Error::InvalidEscape);
            },
        };
        let b3 = match self.eat_byte() {
            Ok(b) => b,
            Err(e) => {
                return Err(e);
            },
        };
        proof {
            assert(self.remaining() =~= t.skip(4));
        }
        let h3 = match hex_nibble(b3) {
            Some(v) => v,
            None => {
                return Err(Error::InvalidEscape);
            },
        };
        let n: u16 = (((h0 as u16) * 16 + (h1 as u16)) * 16 + (h2 as u16)) * 16 + (h3 as u16);
        proof {
            assert(t[1] == t.skip(1)[0] && t[2] == t.skip(2)[0] && t[3] == t.skip(3)[0]);
            assert(n as nat == 4096 * hex_val(t[0]) + 256 * hex_val(t[1]) + 16 * hex_val(t[2])
                + hex_val(t[3]));
        }
        Ok(n)
    }

    /// Decodes one escape sequence (the backslash already consumed) and
    /// appends its bytes to `store`.
    fn parse_str_escape(&mut self, store: &mut Vec<u8>) -> (r: Result<(), Error>)
        requires
            old(self).wf(),
        ensures
            final(self).wf(),
            final(self).input() == old(self).input(),
            match r {
                Ok(()) => (esc_of(old(self).remaining()) matches Esc::Decoded { bytes, used }
                    && final(store)@ == old(store)@ + bytes && final(self).remaining() == old(
                    self,
                ).remaining().skip(used as int)),
                Err(e) => (final(store)@ == old(store)@ && ((e == Error::Eof && esc_of(
                    old(self).remaining(),
                ) is Short) || (e == Error::InvalidEscape && esc_of(old(self).remaining())
                    is Bad))),
            },
    {
        proof {
            reveal(esc_of);
        }
        let ghost t = self.remaining();
        let c = match self.eat_byte() {
            Ok(b) => b,
            Err(e) => {
                return Err(e);
            },
        };
        if c == 34 || c == 92 {
            store.push(c);
            proof {
                assert(store@ =~= old(store)@ + seq![c]);
            }
            Ok(())
        } else if c == 98 {
            store.push(8);
            proof {
                assert(store@ =~= old(store)@ + seq![8u8]);
            }
            Ok(())
        } else if c == 102 {
            store.push(12);
            proof {
                assert(store@ =~= old(store)@ + seq![12u8]);
            }
            Ok(())
        } else if c == 110 {
            store.push(10);
            proof {
                assert(store@ =~= old(store)@ + seq![10u8]);
            }
            Ok(())
        } else if c == 114 {
            store.push(13);
            proof {
                assert(store@ =~= old(store)@ + seq![13u8]);
            }
            Ok(())
        } else if c == 116 {
            store.push(9);
            proof {
                assert(store@ =~= old(store)@ + seq![9u8]);
            }
            Ok(())
        } else if c == 117 {
            let n1 = match self.decode_hex_escape() {
                Ok(n) => n,
                Err(e) => {
                    return Err(e);
                },
            };
            proof {
                assert(self.remaining() =~= t.skip(5));
            }
            if 0xDC00 <= n1 && n1 <= 0xDFFF {
                return Err(Error::InvalidEscape);
            }
            if 0xD800 <= n1 && n1 <= 0xDBFF {
                let ghost u = t.skip(5);
                let b1 = match self.eat_byte() {
                    Ok(b) => b,
                    Err(e) => {
                        return Err(e);
                    },
                };
                if b1 != 92 {
                    return Err(Error::InvalidEscape);
                }
                let b2 = match self.eat_byte() {
                    Ok(b) => b,
                    Err(e) => {
                        return Err(e);
                    },
                };
                proof {
                    assert(u[1] == u.skip(1)[0]);
                    assert(self.remaining() =~= t.skip(7));
                    assert(u.skip(2) =~= t.skip(7));
                }
                if b2 != 117 {
                    return Err(Error::InvalidEscape);
                }
                let n2 = match self.decode_hex_escape() {
                    Ok(n) => n,
                    Err(e) => {
                        return Err(e);
                    },
                };
                if n2 < 0xDC00 || n2 > 0xDFFF {
                    return Err(Error::InvalidEscape);
                }
                let scalar: u32 = ((n1 - 0xD800) as u32) * 1024 + ((n2 - 0xDC00) as u32)
                    + 0x10000;
                proof {
                    assert(0x10000 <= scalar <= 0x10FFFF);
                    assert(is_scalar(scalar));
                    assert(self.remaining() =~= t.skip(11));
                }
                push_scalar_utf8(store, scalar);
                Ok(())
            } else {
                proof {
                    assert(is_scalar(n1 as u32));
                }
                push_scalar_utf8(store, n1 as u32);
                Ok(())
            }
        } else {
            Err(Error::InvalidEscape)
        }
    }

    /// Scans a string literal.  A body without escapes is returned as a
    /// zero-copy `Slice` borrowing the input; the first backslash
    /// commits the scan to an owned, escape-decoded `Allocated` buffer.
    /// Either way the accumulated bytes must be valid UTF-8.
    #[verifier::rlimit(100)]
    pub fn string(&mut self) -> (r: Result<ParsedStr<'a>, Error>)
        requires
            old(self).wf(),
        ensures
            final(self).wf(),
            final(self).input() == old(self).input(),
            ({
                let s = old(self).remaining();
                if s.len() == 0 || s[0] != 34 {
                    r == Err::<ParsedStr<'a>, Error>(Error::ExpectedString) && *final(self)
                        == *old(self)
                } else {
                    match str_content(s.skip(1)) {
                        StrScan::Short => r == Err::<ParsedStr<'a>, Error>(Error::Eof),
                        StrScan::Bad => r == Err::<ParsedStr<'a>, Error>(Error::InvalidEscape),
                        StrScan::Found { content, used, escaped } => {
                            if valid_utf8(content) {
                                &&& final(self).remaining() == s.skip(1 + used as int)
                                &&& match r {
                                    Ok(ParsedStr::Slice(sl)) => !escaped && sl.spec_bytes()
                                        == content && sl@ == decode_utf8(content),
                                    Ok(ParsedStr::Allocated(st)) => escaped && st@
                                        == decode_utf8(content),
                                    _ => false,
                                }
                            } else {
                                r == Err::<ParsedStr<'a>, Error>(Error::Utf8Error)
                            }
                        },
                    }
                }
            }),
    {
        let ghost s0 = self.remaining();
        let open = match self.peek() {
            Some(b) => b,
            None => {
                return Err(Error::ExpectedString);
            },
        };
        if open != 34 {
            return Err(Error::ExpectedString);
        }
        let _ = self.advance_single();
        let ghost t0 = self.remaining();
        proof {
            assert(t0 =~= s0.skip(1));
        }
        let j = self.scan_plain_len();
        if j == self.buf.len() - self.pos {
            proof {
                reveal(str_content);
            }
            return Err(Error::Eof);
        }
        let brk = self.buf[self.pos + j];
        proof {
            assert(t0[j as int] == self.buf@[self.pos + j]);
        }
        if brk == 34 {
            let content = slice_subrange(self.buf, self.pos, self.pos + j);
            proof {
                reveal(str_content);
                assert(content@ =~= t0.take(j as int));
            }
            match bytes_to_str(content) {
                None => Err(Error::Utf8Error),
                Some(sl) => {
                    let _ = self.advance(j + 1);
                    proof {
                        encode_utf8_decode_utf8(sl@);
                        assert(self.remaining() =~= s0.skip(1 + (j + 1)));
                    }
                    Ok(ParsedStr::Slice(sl))
                },
            }
        } else {
            proof {
                lemma_scan_enter(t0, j as int);
            }
            let mut store: Vec<u8> = slice_to_vec(slice_subrange(self.buf, self.pos, self.pos + j));
            proof {
                assert(store@ =~= t0.take(j as int));
            }
            let _ = self.advance(j + 1);
            let ghost mut done: int = j + 1;
            proof {
                assert(self.remaining() =~= t0.skip(done));
            }
            loop
                invariant
                    self.wf(),
                    self.input() == old(self).input(),
                    s0 == old(self).remaining(),
                    t0 == s0.skip(1),
                    s0.len() > 0 && s0[0] == 34,
                    0 <= done <= t0.len(),
                    self.remaining() == t0.skip(done),
                    str_content(t0) == resume(t0, done, store@),
                decreases t0.len() - done,
            {
                let ghost pre_store = store@;
                match self.parse_str_escape(&mut store) {
                    Err(e) => {
                        return Err(e);
                    },
                    Ok(()) => {},
                }
                proof {
                    lemma_scan_escape(t0, done, pre_store);
                    lemma_esc_used(t0.skip(done));
                    match esc_of(t0.skip(done)) {
                        Esc::Decoded { bytes, used } => {
                            assert(self.remaining() =~= t0.skip(done + used));
                            done = done + used;
                        },
                        _ => {
                            assert(false);
                        },
                    }
                }
                let j2 = self.scan_plain_len();
                if j2 == self.buf.len() - self.pos {
                    proof {
                        lemma_scan_short(t0, done, store@);
                    }
                    return Err(Error::Eof);
                }
                let brk2 = self.buf[self.pos + j2];
                proof {
                    assert(t0.skip(done)[j2 as int] == self.buf@[self.pos + j2]);
                }
                let chunk = slice_subrange(self.buf, self.pos, self.pos + j2);
                proof {
                    assert(chunk@ =~= t0.skip(done).take(j2 as int));
                }
                let mut chunk_vec = slice_to_vec(chunk);
                let ghost pre2 = store@;
                store.append(&mut chunk_vec);
                let _ = self.advance(j2 + 1);
                if brk2 == 34 {
                    proof {
                        lemma_scan_close(t0, done, pre2, j2 as int);
                        done = done + j2 + 1;
                        assert(self.remaining() =~= t0.skip(done));
                        assert(self.remaining() =~= s0.skip(1 + done));
                    }
                    match bytes_to_str(store.as_slice()) {
                        None => {
                            return Err(Error::Utf8Error);
                        },
                        Some(sl) => {
                            let owned = sl.to_owned();
                            proof {
                                encode_utf8_decode_utf8(sl@);
                            }
                            return Ok(ParsedStr::Allocated(owned));
                        },
                    }
                } else {
                    proof {
                        lemma_scan_continue(t0, done, pre2, j2 as int);
                        done = done + j2 + 1;
                        assert(self.remaining() =~= t0.skip(done));
                    }
                }
            }
        }
    }
}

/// The result of a string scan: either a zero-copy slice of the input
/// (no escapes were encountered) or an owned, escape-decoded string.
/// Once a scan switches to `Allocated` it never reverts.
#[derive(Clone, Debug)]
pub enum ParsedStr<'a> {
    /// An owned, escape-decoded string.
    Allocated(String),
    /// A borrowed run of the original input; zero allocation.
    Slice(&'a str),
}

/// The bytes of an ASCII string are exactly its characters' code points.
pub proof fn lemma_ascii_str_bytes(s: &str)
    requires
        vstd::utf8::is_ascii_chars(s@),
    ensures
        s.spec_bytes().len() == s@.len(),
        forall|i: int| 0 <= i < s@.len() ==> s.spec_bytes()[i] == s@[i] as u8,
{
    vstd::utf8::is_ascii_chars_encode_utf8(s@);
}

/// The byte runs that the boolean literals match.
pub proof fn lemma_bool_literal_bytes()
    ensures
        "true".spec_bytes() == true_bytes(),
        "false".spec_bytes() == false_bytes(),
{
    reveal_strlit("true");
    reveal_strlit("false");
    assert(is_ascii_chars("true"@));
    assert(is_ascii_chars("false"@));
    lemma_ascii_str_bytes("true");
    lemma_ascii_str_bytes("false");
    assert("true".spec_bytes() =~= true_bytes());
    assert("false".spec_bytes() =~= false_bytes());
}

/// The value of a hex digit byte, or `None` for any other byte.
fn hex_nibble(b: u8) -> (r: Option<u8>)
    ensures
        r is Some <==> is_hex_byte(b),
        r matches Some(v) ==> v as nat == hex_val(b) && v < 16,
{
    if 48 <= b && b <= 57 {
        Some(b - 48)
    } else if 97 <= b && b <= 102 {
        Some(b - 87)
    } else if 65 <= b && b <= 70 {
        Some(b - 55)
    } else {
        None
    }
}

/// Whether `b` occurs in `s`.
fn slice_contains(s: &[u8], b: u8) -> (r: bool)
    ensures
        r == s@.contains(b),
{
    let mut i: usize = 0;
    while i < s.len()
        invariant
            i <= s@.len(),
            forall|j: int| 0 <= j < i ==> s@[j] != b,
        decreases s@.len() - i,
    {
        if s[i] == b {
            return true;
        }
        i = i + 1;
    }
    proof {
        assert(forall|j: int| 0 <= j < s@.len() ==> s@[j] != b);
    }
    false
}

} // verus!

