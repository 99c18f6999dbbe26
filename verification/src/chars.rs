//! Byte classes used by the scanners, maximal-prefix lengths, and the
//! decimal value of a digit run.

use vstd::prelude::*;

verus! {

/// Whitespace bytes skipped between tokens: newline, tab, carriage return,
/// space.
pub open spec fn is_whitespace_byte(b: u8) -> bool {
    b == 10 || b == 9 || b == 13 || b == 32
}

/// ASCII decimal digits.
pub open spec fn is_digit_byte(b: u8) -> bool {
    48 <= b && b <= 57
}

/// Bytes that may start an identifier: ASCII letters and underscore.
pub open spec fn is_ident_first_byte(b: u8) -> bool {
    (65 <= b && b <= 90) || (97 <= b && b <= 122) || b == 95
}

/// Bytes that may continue an identifier: letters, underscore, digits.
pub open spec fn is_ident_byte(b: u8) -> bool {
    is_ident_first_byte(b) || is_digit_byte(b)
}

/// Bytes admitted into a float token: digits, `.`, `+`, `-`, `e`, `E`.
/// The run is permissive; whether it parses as a number is decided later.
pub open spec fn is_float_byte(b: u8) -> bool {
    is_digit_byte(b) || b == 46 || b == 43 || b == 45 || b == 101 || b == 69
}

/// Bytes that end the plain portion of a string body: `"` and `\`.
pub open spec fn is_string_break_byte(b: u8) -> bool {
    b == 34 || b == 92
}

/// Length of the maximal prefix of `s` whose bytes all satisfy `pred`.
pub open spec fn prefix_len(s: Seq<u8>, pred: spec_fn(u8) -> bool) -> nat
    decreases s.len(),
{
    if s.len() == 0 || !pred(s[0]) {
        0
    } else {
        1 + prefix_len(s.skip(1), pred)
    }
}

/// The maximal prefix is never longer than the sequence itself.
pub proof fn lemma_prefix_len_le(s: Seq<u8>, pred: spec_fn(u8) -> bool)
    ensures
        prefix_len(s, pred) <= s.len(),
    decreases s.len(),
{
    if s.len() != 0 && pred(s[0]) {
        lemma_prefix_len_le(s.skip(1), pred);
    }
}

/// `prefix_len` is the unique `n` such that the first `n` bytes satisfy
/// `pred` and the byte after them (if any) does not.
pub proof fn lemma_prefix_len_is(s: Seq<u8>, pred: spec_fn(u8) -> bool, n: int)
    requires
        0 <= n <= s.len(),
        forall|i: int| 0 <= i < n ==> pred(s[i]),
        n == s.len() || !pred(s[n]),
    ensures
        prefix_len(s, pred) == n,
    decreases s.len(),
{
    if n == 0 {
    } else {
        assert(pred(s[0]));
        assert forall|i: int| 0 <= i < n - 1 implies pred(s.skip(1)[i]) by {
            assert(s.skip(1)[i] == s[i + 1]);
        }
        if n < s.len() {
            assert(s.skip(1)[n - 1] == s[n]);
        }
        lemma_prefix_len_is(s.skip(1), pred, n - 1);
    }
}

/// Decimal value of a digit run, most significant digit first.
pub open spec fn digits_val(s: Seq<u8>) -> nat
    recommends
        forall|i: int| 0 <= i < s.len() ==> is_digit_byte(s[i]),
    decreases s.len(),
{
    if s.len() == 0 {
        0
    } else {
        digits_val(s.drop_last()) * 10 + (s.last() - 48) as nat
    }
}

/// The canonical decimal digit run of a number, without leading zeros.
pub open spec fn dec_digits(n: nat) -> Seq<u8>
    decreases n,
{
    if n < 10 {
        seq![(48 + n) as u8]
    } else {
        dec_digits(n / 10).push((48 + n % 10) as u8)
    }
}

/// The canonical digit run consists of digit bytes only and is non-empty.
pub proof fn lemma_dec_digits_are_digits(n: nat)
    ensures
        dec_digits(n).len() >= 1,
        forall|i: int| 0 <= i < dec_digits(n).len() ==> is_digit_byte(#[trigger] dec_digits(n)[i]),
    decreases n,
{
    if n >= 10 {
        lemma_dec_digits_are_digits(n / 10);
        assert forall|i: int| 0 <= i < dec_digits(n).len() implies is_digit_byte(
            #[trigger] dec_digits(n)[i],
        ) by {
            if i < dec_digits(n / 10).len() {
                assert(dec_digits(n)[i] == dec_digits(n / 10)[i]);
            }
        }
    }
}

/// Reading the canonical digit run back yields the original number.
pub proof fn lemma_digits_val_dec_digits(n: nat)
    ensures
        digits_val(dec_digits(n)) == n,
    decreases n,
{
    if n < 10 {
        let b = (48 + n) as u8;
        assert(b as nat == 48 + n);
        assert(dec_digits(n) == seq![b]);
        assert(seq![b].drop_last() =~= Seq::<u8>::empty());
        assert(seq![b].last() == b);
        assert(digits_val(Seq::<u8>::empty()) == 0);
        assert(digits_val(seq![b]) == digits_val(Seq::<u8>::empty()) * 10 + (b - 48) as nat);
        assert(digits_val(dec_digits(n)) == n);
    } else {
        lemma_digits_val_dec_digits(n / 10);
        let s = dec_digits(n / 10);
        let d = (48 + n % 10) as u8;
        assert(n % 10 < 10);
        assert(d as nat == 48 + n % 10);
        lemma_digits_val_push(s, d);
        assert(digits_val(s.push(d)) == digits_val(s) * 10 + (d - 48));
        assert(digits_val(s) == n / 10);
        assert(dec_digits(n) == s.push(d));
        assert(digits_val(dec_digits(n)) == (n / 10) * 10 + (n % 10));
        vstd::arithmetic::div_mod::lemma_fundamental_div_mod(n as int, 10);
    }
}

/// Appending one digit multiplies the value by ten and adds the digit.
pub proof fn lemma_digits_val_push(s: Seq<u8>, b: u8)
    requires
        is_digit_byte(b),
    ensures
        digits_val(s.push(b)) == digits_val(s) * 10 + (b - 48),
{
    assert(s.push(b).drop_last() =~= s);
    assert(s.push(b).last() == b);
}

/// Exec check for [`is_whitespace_byte`].
pub fn whitespace_byte(b: u8) -> (r: bool)
    ensures
        r == is_whitespace_byte(b),
{
    b == 10 || b == 9 || b == 13 || b == 32
}

/// Exec check for [`is_digit_byte`].
pub fn digit_byte(b: u8) -> (r: bool)
    ensures
        r == is_digit_byte(b),
{
    48 <= b && b <= 57
}

/// Exec check for [`is_ident_first_byte`].
pub fn ident_first_byte(b: u8) -> (r: bool)
    ensures
        r == is_ident_first_byte(b),
{
    (65 <= b && b <= 90) || (97 <= b && b <= 122) || b == 95
}

/// Exec check for [`is_ident_byte`].
pub fn ident_byte(b: u8) -> (r: bool)
    ensures
        r == is_ident_byte(b),
{
    ident_first_byte(b) || digit_byte(b)
}

/// Exec check for [`is_float_byte`].
pub fn float_byte(b: u8) -> (r: bool)
    ensures
        r == is_float_byte(b),
{
    digit_byte(b) || b == 46 || b == 43 || b == 45 || b == 101 || b == 69
}

/// Exec check for [`is_string_break_byte`].
pub fn string_break_byte(b: u8) -> (r: bool)
    ensures
        r == is_string_break_byte(b),
{
    b == 34 || b == 92
}

} // verus!
