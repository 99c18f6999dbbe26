//! The specification model of string-body scanning: hex code units,
//! escape sequences (including UTF-16 surrogate pairs), and the outcome
//! of scanning a string body up to its closing quote.

use vstd::prelude::*;
use vstd::string::StringSliceAdditionalSpecFns;
use vstd::utf8::{encode_scalar, is_scalar, valid_utf8};

use crate::chars::{is_digit_byte, is_string_break_byte, prefix_len};

verus! {

/// ASCII hex digits, upper or lower case.
pub open spec fn is_hex_byte(b: u8) -> bool {
    is_digit_byte(b) || (97 <= b && b <= 102) || (65 <= b && b <= 70)
}

/// Value of one hex digit.
pub open spec fn hex_val(b: u8) -> nat
    recommends
        is_hex_byte(b),
{
    if is_digit_byte(b) {
        (b - 48) as nat
    } else if 97 <= b && b <= 102 {
        (b - 87) as nat
    } else if 65 <= b && b <= 70 {
        (b - 55) as nat
    } else {
        0
    }
}

/// Outcome of reading four hex digits at the head of a byte sequence.
pub ghost enum Hex4 {
    /// Four hex digits stood there; their big-endian value (below 0x10000).
    Value(nat),
    /// The input ended before four digits were read.
    Short,
    /// A non-hex byte stood among the first four.
    Bad,
}

/// Reads four hex digits byte by byte, as the scanner does: the first
/// missing byte reports `Short`, the first non-hex byte reports `Bad`.
pub open spec fn hex4_of(t: Seq<u8>) -> Hex4 {
    if t.len() == 0 {
        Hex4::Short
    } else if !is_hex_byte(t[0]) {
        Hex4::Bad
    } else if t.len() == 1 {
        Hex4::Short
    } else if !is_hex_byte(t[1]) {
        Hex4::Bad
    } else if t.len() == 2 {
        Hex4::Short
    } else if !is_hex_byte(t[2]) {
        Hex4::Bad
    } else if t.len() == 3 {
        Hex4::Short
    } else if !is_hex_byte(t[3]) {
        Hex4::Bad
    } else {
        Hex4::Value(4096 * hex_val(t[0]) + 256 * hex_val(t[1]) + 16 * hex_val(t[2]) + hex_val(t[3]))
    }
}

/// Outcome of decoding one escape sequence, with the backslash already
/// consumed.
pub ghost enum Esc {
    /// The escape decoded to `bytes`, consuming `used` input bytes.
    Decoded { bytes: Seq<u8>, used: nat },
    /// The input ended inside the escape.
    Short,
    /// The escape is malformed or illegal.
    Bad,
}

/// Decodes the escape sequence at the head of `t` (the byte after the
/// backslash comes first).  Single-character escapes yield one byte;
/// `\u` yields the UTF-8 encoding of the named scalar, where a high
/// surrogate must be followed by `\u` and a low surrogate, combined by
/// the UTF-16 formula, and a lone low surrogate is illegal.
#[verifier::opaque]
pub open spec fn esc_of(t: Seq<u8>) -> Esc {
    if t.len() == 0 {
        Esc::Short
    } else if t[0] == 34 {
        Esc::Decoded { bytes: seq![34u8], used: 1 }
    } else if t[0] == 92 {
        Esc::Decoded { bytes: seq![92u8], used: 1 }
    } else if t[0] == 98 {
        Esc::Decoded { bytes: seq![8u8], used: 1 }
    } else if t[0] == 102 {
        Esc::Decoded { bytes: seq![12u8], used: 1 }
    } else if t[0] == 110 {
        Esc::Decoded { bytes: seq![10u8], used: 1 }
    } else if t[0] == 114 {
        Esc::Decoded { bytes: seq![13u8], used: 1 }
    } else if t[0] == 116 {
        Esc::Decoded { bytes: seq![9u8], used: 1 }
    } else if t[0] == 117 {
        match hex4_of(t.skip(1)) {
            Hex4::Short => Esc::Short,
            Hex4::Bad => Esc::Bad,
            Hex4::Value(n1) => {
                if 0xDC00 <= n1 && n1 <= 0xDFFF {
                    Esc::Bad
                } else if 0xD800 <= n1 && n1 <= 0xDBFF {
                    let u = t.skip(5);
                    if u.len() == 0 {
                        Esc::Short
                    } else if u[0] != 92 {
                        Esc::Bad
                    } else if u.len() == 1 {
                        Esc::Short
                    } else if u[1] != 117 {
                        Esc::Bad
                    } else {
                        match hex4_of(u.skip(2)) {
                            Hex4::Short => Esc::Short,
                            Hex4::Bad => Esc::Bad,
                            Hex4::Value(n2) => {
                                if n2 < 0xDC00 || n2 > 0xDFFF {
                                    Esc::Bad
                                } else {
                                    Esc::Decoded {
                                        bytes: encode_scalar(
                                            ((n1 - 0xD800) * 1024 + (n2 - 0xDC00)
                                                + 0x10000) as u32,
                                        ),
                                        used: 11,
                                    }
                                }
                            },
                        }
                    }
                } else {
                    Esc::Decoded { bytes: encode_scalar(n1 as u32), used: 5 }
                }
            },
        }
    } else {
        Esc::Bad
    }
}

/// A decoded escape consumed at least one and at most eleven bytes, all
/// within the input, and produced between one and four bytes.
pub proof fn lemma_esc_used(t: Seq<u8>)
    ensures
        esc_of(t) matches Esc::Decoded { bytes, used } ==> 1 <= used <= t.len() && 1
            <= bytes.len() <= 4,
{
    reveal(esc_of);
    if esc_of(t) is Decoded {
        if t.len() > 0 && t[0] == 117 {
            match hex4_of(t.skip(1)) {
                Hex4::Value(n1) => {
                    assert(t.skip(1).len() >= 4);
                    if 0xD800 <= n1 && n1 <= 0xDBFF {
                        let u = t.skip(5);
                        if u.len() >= 2 && u[0] == 92 && u[1] == 117 {
                            match hex4_of(u.skip(2)) {
                                Hex4::Value(n2) => {
                                    assert(u.skip(2).len() >= 4);
                                    if 0xDC00 <= n2 && n2 <= 0xDFFF {
                                        let n = (n1 - 0xD800) * 1024 + (n2 - 0xDC00) + 0x10000;
                                        assert(n1 <= 0xDBFF && n2 <= 0xDFFF);
                                        assert(n <= 0x10FFFF);
                                        assert(is_scalar(n as u32));
                                    }
                                },
                                _ => {},
                            }
                        }
                    } else {
                        assert(n1 < 0x10000);
                    }
                },
                _ => {},
            }
        }
    }
}

/// Bytes that continue the plain portion of a string body (everything
/// but the closing quote and the backslash), as a predicate value.
pub open spec fn not_break_pred() -> spec_fn(u8) -> bool {
    |b: u8| !is_string_break_byte(b)
}

/// Outcome of scanning a string body (the opening quote already
/// consumed) up to its closing quote.
pub ghost enum StrScan {
    /// The body decoded to `content`, consuming `used` bytes including
    /// the closing quote; `escaped` records whether any escape occurred.
    Found { content: Seq<u8>, used: nat, escaped: bool },
    /// The input ended before the closing quote.
    Short,
    /// An escape in the body is malformed or illegal.
    Bad,
}

/// Scans the string body at the head of `t`: plain bytes are taken
/// verbatim up to the first quote or backslash; a quote closes the body;
/// a backslash decodes one escape and scanning resumes after it.
#[verifier::opaque]
pub open spec fn str_content(t: Seq<u8>) -> StrScan
    decreases t.len(),
{
    let j = prefix_len(t, not_break_pred()) as int;
    if j >= t.len() {
        StrScan::Short
    } else if t[j] == 34 {
        StrScan::Found { content: t.take(j), used: (j + 1) as nat, escaped: false }
    } else {
        match esc_of(t.skip(j + 1)) {
            Esc::Short => StrScan::Short,
            Esc::Bad => StrScan::Bad,
            Esc::Decoded { bytes, used } => {
                if j + 1 + used <= t.len() {
                    match str_content(t.skip(j + 1 + used)) {
                        StrScan::Found { content, used: u2, escaped: _ } => StrScan::Found {
                            content: t.take(j) + bytes + content,
                            used: (j + 1 + used + u2) as nat,
                            escaped: true,
                        },
                        o => o,
                    }
                } else {
                    StrScan::Short
                }
            },
        }
    }
}

/// The body outcome as seen from a cursor standing right after a
/// backslash, `done` bytes into the body, with `acc` already decoded.
pub open spec fn resume(t0: Seq<u8>, done: int, acc: Seq<u8>) -> StrScan {
    match esc_of(t0.skip(done)) {
        Esc::Short => StrScan::Short,
        Esc::Bad => StrScan::Bad,
        Esc::Decoded { bytes, used } => {
            if done + used <= t0.len() {
                match str_content(t0.skip(done + used)) {
                    StrScan::Found { content, used: u2, escaped: _ } => StrScan::Found {
                        content: acc + bytes + content,
                        used: (done + used + u2) as nat,
                        escaped: true,
                    },
                    o => o,
                }
            } else {
                StrScan::Short
            }
        },
    }
}

/// The body outcome as seen from a cursor standing just after a decoded
/// escape, `done` bytes into the body, with `acc` already decoded.
pub open spec fn after_escape(t0: Seq<u8>, done: int, acc: Seq<u8>) -> StrScan {
    match str_content(t0.skip(done)) {
        StrScan::Found { content, used: u2, escaped: _ } => StrScan::Found {
            content: acc + content,
            used: (done + u2) as nat,
            escaped: true,
        },
        o => o,
    }
}

/// Entering the body's first escape: when the first break in the body is
/// a backslash, the body outcome is the outcome of resuming right after
/// that backslash with the plain prefix already accumulated.
pub proof fn lemma_scan_enter(t0: Seq<u8>, j: int)
    requires
        0 <= j < t0.len(),
        j == prefix_len(t0, not_break_pred()),
        t0[j] == 92,
    ensures
        str_content(t0) == resume(t0, j + 1, t0.take(j)),
{
    reveal(str_content);
    match esc_of(t0.skip(j + 1)) {
        Esc::Decoded { bytes, used } => {
            if j + 1 + used <= t0.len() {
                match str_content(t0.skip(j + 1 + used)) {
                    StrScan::Found { content, used: u2, escaped: _ } => {
                        assert(t0.take(j) + bytes + content =~~= t0.take(j) + (bytes + content));
                        assert(t0.take(j) + bytes + content == t0.take(j) + bytes + content);
                    },
                    _ => {},
                }
            }
        },
        _ => {},
    }
}

/// Decoding one escape: when the escape at `done` decodes, the resumed
/// outcome equals the outcome just after the escape with its bytes
/// appended to the accumulator.
pub proof fn lemma_scan_escape(t0: Seq<u8>, done: int, acc: Seq<u8>)
    requires
        0 <= done <= t0.len(),
        esc_of(t0.skip(done)) is Decoded,
    ensures
        (esc_of(t0.skip(done)) matches Esc::Decoded { bytes, used } ==> resume(t0, done, acc)
            == after_escape(t0, done + used, acc + bytes)),
{
    reveal(str_content);
    lemma_esc_used(t0.skip(done));
    match esc_of(t0.skip(done)) {
        Esc::Decoded { bytes, used } => {
            assert(used <= t0.skip(done).len());
            match str_content(t0.skip(done + used)) {
                StrScan::Found { content, used: u2, escaped: _ } => {
                    assert(acc + bytes + content =~= (acc + bytes) + content);
                },
                _ => {},
            }
        },
        _ => {},
    }
}

/// Closing the body: when the next break after an escape is a quote, the
/// outcome is the accumulator plus the plain chunk before the quote.
pub proof fn lemma_scan_close(t0: Seq<u8>, done: int, acc: Seq<u8>, j2: int)
    requires
        0 <= done <= t0.len(),
        j2 == prefix_len(t0.skip(done), not_break_pred()),
        j2 < t0.skip(done).len(),
        t0.skip(done)[j2] == 34,
    ensures
        after_escape(t0, done, acc) == (StrScan::Found {
            content: acc + t0.skip(done).take(j2),
            used: (done + j2 + 1) as nat,
            escaped: true,
        }),
{
    reveal(str_content);
}

/// Continuing the body: when the next break after an escape is another
/// backslash, the outcome resumes after it with the plain chunk
/// accumulated.
pub proof fn lemma_scan_continue(t0: Seq<u8>, done: int, acc: Seq<u8>, j2: int)
    requires
        0 <= done <= t0.len(),
        j2 == prefix_len(t0.skip(done), not_break_pred()),
        j2 < t0.skip(done).len(),
        t0.skip(done)[j2] == 92,
    ensures
        after_escape(t0, done, acc) == resume(t0, done + j2 + 1, acc + t0.skip(done).take(j2)),
{
    reveal(str_content);
    let u = t0.skip(done);
    assert(u.skip(j2 + 1) =~= t0.skip(done + j2 + 1));
    match esc_of(u.skip(j2 + 1)) {
        Esc::Decoded { bytes, used } => {
            lemma_esc_used(u.skip(j2 + 1));
            if j2 + 1 + used <= u.len() {
                assert(u.skip(j2 + 1 + used) =~= t0.skip(done + j2 + 1 + used));
                match str_content(u.skip(j2 + 1 + used)) {
                    StrScan::Found { content, used: u2, escaped: _ } => {
                        assert(acc + (u.take(j2) + bytes + content) =~= (acc + u.take(j2)) + bytes
                            + content);
                    },
                    _ => {},
                }
            }
        },
        _ => {},
    }
}

/// Running out of input: when no break remains after an escape, the body
/// outcome is `Short`.
pub proof fn lemma_scan_short(t0: Seq<u8>, done: int, acc: Seq<u8>)
    requires
        0 <= done <= t0.len(),
        prefix_len(t0.skip(done), not_break_pred()) >= t0.skip(done).len(),
    ensures
        after_escape(t0, done, acc) == StrScan::Short,
{
    reveal(str_content);
}

/// Appends the UTF-8 encoding of the scalar `c` to `store`.
pub fn push_scalar_utf8(store: &mut Vec<u8>, c: u32)
    requires
        is_scalar(c),
    ensures
        final(store)@ == old(store)@ + encode_scalar(c),
{
    if c < 0x80 {
        store.push((c & 0x7F) as u8);
        proof {
            assert(store@ =~= old(store)@ + encode_scalar(c));
        }
    } else if c < 0x800 {
        store.push(0xC0 | (((c >> 6) & 0x1F) as u8));
        store.push(0x80 | ((c & 0x3F) as u8));
        proof {
            assert(store@ =~= old(store)@ + encode_scalar(c));
        }
    } else if c < 0x10000 {
        store.push(0xE0 | (((c >> 12) & 0x0F) as u8));
        store.push(0x80 | (((c >> 6) & 0x3F) as u8));
        store.push(0x80 | ((c & 0x3F) as u8));
        proof {
            assert(store@ =~= old(store)@ + encode_scalar(c));
        }
    } else {
        store.push(0xF0 | (((c >> 18) & 0x7) as u8));
        store.push(0x80 | (((c >> 12) & 0x3F) as u8));
        store.push(0x80 | (((c >> 6) & 0x3F) as u8));
        store.push(0x80 | ((c & 0x3F) as u8));
        proof {
            assert(store@ =~= old(store)@ + encode_scalar(c));
        }
    }
}

/// Relies on `std::str::from_utf8`: it returns `Ok` exactly when the
/// bytes are valid UTF-8, and the returned string borrows those same
/// bytes.
#[verifier::external_body]
pub(crate) fn bytes_to_str(v: &[u8]) -> (r: Option<&str>)
    ensures
        r is Some <==> valid_utf8(v@),
        r matches Some(s) ==> s.spec_bytes() == v@,
{
    std::str::from_utf8(v).ok()
}

} // verus!
