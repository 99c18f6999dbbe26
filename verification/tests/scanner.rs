use ron_core::error::Error;
use ron_core::parse::{Bytes, ParsedStr, Position};

#[test]
fn test_string_slice_hello() {
    let mut b = Bytes::new(b"\"hello\"");
    match b.string().unwrap() {
        ParsedStr::Slice(s) => assert_eq!(s, "hello"),
        ParsedStr::Allocated(_) => panic!("expected a zero-copy slice"),
    }
    assert_eq!(b.bytes(), b"");
    assert_eq!(b.position(), Position { col: 8, line: 1 });
}

#[test]
fn test_string_empty() {
    let mut b = Bytes::new(b"\"\"rest");
    match b.string().unwrap() {
        ParsedStr::Slice(s) => assert_eq!(s, ""),
        ParsedStr::Allocated(_) => panic!("expected a zero-copy slice"),
    }
    assert_eq!(b.bytes(), b"rest");
}

#[test]
fn test_string_escape_newline() {
    let mut b = Bytes::new(b"\"a\\nb\"");
    match b.string().unwrap() {
        ParsedStr::Allocated(s) => assert_eq!(s, "a\nb"),
        ParsedStr::Slice(_) => panic!("an escape must commit to the owned path"),
    }
    assert_eq!(b.bytes(), b"");
}

#[test]
fn test_string_all_simple_escapes() {
    let mut b = Bytes::new(b"\"\\\"\\\\\\b\\f\\n\\r\\t\"");
    match b.string().unwrap() {
        ParsedStr::Allocated(s) => assert_eq!(s, "\"\\\u{8}\u{c}\n\r\t"),
        ParsedStr::Slice(_) => panic!("an escape must commit to the owned path"),
    }
}

#[test]
fn test_string_hex_escape_bmp() {
    let mut b = Bytes::new(b"\"\\u0041x\"");
    match b.string().unwrap() {
        ParsedStr::Allocated(s) => assert_eq!(s, "Ax"),
        ParsedStr::Slice(_) => panic!("an escape must commit to the owned path"),
    }
}

#[test]
fn test_string_surrogate_pair() {
    let mut b = Bytes::new(b"\"\\uD83D\\uDE00\"");
    match b.string().unwrap() {
        ParsedStr::Allocated(s) => {
            assert_eq!(s, "\u{1F600}");
            assert_eq!(s.as_bytes(), [0xF0, 0x9F, 0x98, 0x80]);
        },
        ParsedStr::Slice(_) => panic!("an escape must commit to the owned path"),
    }
}

#[test]
fn test_string_lone_low_surrogate() {
    let mut b = Bytes::new(b"\"\\uDC00\"");
    assert_eq!(b.string().unwrap_err(), Error::InvalidEscape);
}

#[test]
fn test_string_high_surrogate_without_low() {
    let mut b = Bytes::new(b"\"\\uD83Dxx\"");
    assert_eq!(b.string().unwrap_err(), Error::InvalidEscape);
    let mut b = Bytes::new(b"\"\\uD83D\\n\"");
    assert_eq!(b.string().unwrap_err(), Error::InvalidEscape);
    let mut b = Bytes::new(b"\"\\uD83D\\u0041\"");
    assert_eq!(b.string().unwrap_err(), Error::InvalidEscape);
}

#[test]
fn test_string_bad_escape_char() {
    let mut b = Bytes::new(b"\"a\\qb\"");
    assert_eq!(b.string().unwrap_err(), Error::InvalidEscape);
}

#[test]
fn test_string_bad_hex_digit() {
    let mut b = Bytes::new(b"\"\\u00G1\"");
    assert_eq!(b.string().unwrap_err(), Error::InvalidEscape);
}

#[test]
fn test_string_unterminated() {
    let mut b = Bytes::new(b"\"abc");
    assert_eq!(b.string().unwrap_err(), Error::Eof);
    let mut b = Bytes::new(b"\"ab\\n");
    assert_eq!(b.string().unwrap_err(), Error::Eof);
    let mut b = Bytes::new(b"\"ab\\u00");
    assert_eq!(b.string().unwrap_err(), Error::Eof);
}

#[test]
fn test_string_missing_open_quote() {
    let mut b = Bytes::new(b"hello");
    assert_eq!(b.string().unwrap_err(), Error::ExpectedString);
    assert_eq!(b.bytes(), b"hello");
}

#[test]
fn test_string_invalid_utf8_slice() {
    let mut b = Bytes::new(&[34, 0xFF, 34]);
    assert_eq!(b.string().unwrap_err(), Error::Utf8Error);
}

#[test]
fn test_string_invalid_utf8_owned() {
    let mut b = Bytes::new(&[34, 92, 110, 0xFF, 34]);
    assert_eq!(b.string().unwrap_err(), Error::Utf8Error);
}

#[test]
fn test_unsigned_integer_stops_at_nondigit() {
    let mut b = Bytes::new(b"12345abc");
    assert_eq!(b.unsigned_integer().unwrap(), 12345);
    assert_eq!(b.bytes(), b"abc");
}

#[test]
fn test_unsigned_integer_errors() {
    let mut b = Bytes::new(b"");
    assert_eq!(b.unsigned_integer().unwrap_err(), Error::Eof);
    let mut b = Bytes::new(b"abc");
    assert_eq!(b.unsigned_integer().unwrap_err(), Error::Eof);
    let mut b = Bytes::new(b"99999999999999999999x");
    assert_eq!(b.unsigned_integer().unwrap_err(), Error::ExpectedInteger);
    assert_eq!(b.bytes(), b"x");
    let mut b = Bytes::new(b"18446744073709551615");
    assert_eq!(b.unsigned_integer().unwrap(), u64::MAX);
}

#[test]
fn test_signed_integer_negative() {
    let mut b = Bytes::new(b"-42");
    assert_eq!(b.signed_integer().unwrap(), -42);
    assert_eq!(b.bytes(), b"");
}

#[test]
fn test_signed_integer_cases() {
    let mut b = Bytes::new(b"+7 ");
    assert_eq!(b.signed_integer().unwrap(), 7);
    let mut b = Bytes::new(b"42");
    assert_eq!(b.signed_integer().unwrap(), 42);
    let mut b = Bytes::new(b"-");
    assert_eq!(b.signed_integer().unwrap_err(), Error::Eof);
    let mut b = Bytes::new(b"");
    assert_eq!(b.signed_integer().unwrap_err(), Error::Eof);
    let mut b = Bytes::new(b"-9223372036854775807");
    assert_eq!(b.signed_integer().unwrap(), -9223372036854775807);
    let mut b = Bytes::new(b"-9223372036854775808");
    assert_eq!(b.signed_integer().unwrap_err(), Error::ExpectedInteger);
}

#[test]
fn test_advance_single_tracks_position() {
    let mut b = Bytes::new(b"a\nb");
    b.advance_single().unwrap();
    assert_eq!(b.position(), Position { col: 2, line: 1 });
    b.advance_single().unwrap();
    assert_eq!(b.position(), Position { col: 1, line: 2 });
    b.advance_single().unwrap();
    assert_eq!(b.position(), Position { col: 2, line: 2 });
    assert_eq!(b.advance_single().unwrap_err(), Error::Eof);
}

#[test]
fn test_advance() {
    let mut b = Bytes::new(b"abcdef");
    b.advance(4).unwrap();
    assert_eq!(b.bytes(), b"ef");
    assert_eq!(b.advance(3).unwrap_err(), Error::Eof);
}

#[test]
fn test_consume_commits_only_on_full_match() {
    let mut b = Bytes::new(b"truefalse");
    assert!(b.consume("true"));
    assert_eq!(b.bytes(), b"false");
    let mut b = Bytes::new(b"fals");
    assert!(!b.consume("true"));
    assert_eq!(b.bytes(), b"fals");
    assert_eq!(b.position(), Position { col: 1, line: 1 });
    assert!(!b.consume("false"));
    assert_eq!(b.bytes(), b"fals");
}

#[test]
fn test_comma_consumes_trailing_whitespace() {
    let mut b = Bytes::new(b", next");
    assert!(b.comma());
    assert_eq!(b.bytes(), b"next");
    let mut b = Bytes::new(b"x");
    assert!(!b.comma());
    assert_eq!(b.bytes(), b"x");
}

#[test]
fn test_bool() {
    let mut b = Bytes::new(b"truex");
    assert_eq!(b.bool().unwrap(), true);
    assert_eq!(b.bytes(), b"x");
    let mut b = Bytes::new(b"false");
    assert_eq!(b.bool().unwrap(), false);
    let mut b = Bytes::new(b"tru");
    assert_eq!(b.bool().unwrap_err(), Error::ExpectedBoolean);
    assert_eq!(b.bytes(), b"tru");
}

#[test]
fn test_char() {
    let mut b = Bytes::new(b"'a'rest");
    assert_eq!(b.char().unwrap(), 'a');
    assert_eq!(b.bytes(), b"rest");
    let mut b = Bytes::new(b"'\\\\'");
    assert_eq!(b.char().unwrap(), '\\');
    let mut b = Bytes::new(b"'\\''");
    assert_eq!(b.char().unwrap(), '\'');
}

#[test]
fn test_char_errors() {
    let mut b = Bytes::new(b"x");
    assert_eq!(b.char().unwrap_err(), Error::ExpectedChar);
    let mut b = Bytes::new(b"'ab'");
    assert_eq!(b.char().unwrap_err(), Error::ExpectedChar);
    let mut b = Bytes::new(b"'\\n'");
    assert_eq!(b.char().unwrap_err(), Error::InvalidEscape);
    let mut b = Bytes::new(b"'");
    assert_eq!(b.char().unwrap_err(), Error::Eof);
}

#[test]
fn test_identifier() {
    let mut b = Bytes::new(b"abc_123 rest");
    assert_eq!(b.identifier().unwrap(), b"abc_123");
    assert_eq!(b.bytes(), b" rest");
    let mut b = Bytes::new(b"_x");
    assert_eq!(b.identifier().unwrap(), b"_x");
    let mut b = Bytes::new(b"1abc");
    assert_eq!(b.identifier().unwrap_err(), Error::ExpectedIdentifier);
    let mut b = Bytes::new(b"");
    assert_eq!(b.identifier().unwrap_err(), Error::Eof);
}

#[test]
fn test_skip_ws() {
    let mut b = Bytes::new(b" \t\r\n x");
    b.skip_ws();
    assert_eq!(b.bytes(), b"x");
    assert_eq!(b.position(), Position { col: 2, line: 2 });
}

#[test]
fn test_peek_and_eat_byte() {
    let mut b = Bytes::new(b"ab");
    assert_eq!(b.peek(), Some(b'a'));
    assert_eq!(b.eat_byte().unwrap(), b'a');
    assert_eq!(b.eat_byte().unwrap(), b'b');
    assert_eq!(b.peek(), None);
    assert_eq!(b.eat_byte().unwrap_err(), Error::Eof);
}

#[test]
fn test_next_bytes_contained_in() {
    let b = Bytes::new(b"1234x");
    assert_eq!(b.next_bytes_contained_in(b"0123456789"), 4);
    assert_eq!(b.next_bytes_contained_in(b"x"), 0);
}

#[test]
fn test_float_token() {
    let mut b = Bytes::new(b"1.25e-3,");
    assert_eq!(b.float(), b"1.25e-3");
    assert_eq!(b.bytes(), b",");
    let mut b = Bytes::new(b"1.2.3 ");
    assert_eq!(b.float(), b"1.2.3");
    let mut b = Bytes::new(b"x");
    assert_eq!(b.float(), b"");
    assert_eq!(b.bytes(), b"x");
}

#[test]
fn test_error_descriptions() {
    assert!(!Error::Eof.describe().is_empty());
    assert!(!Error::ExpectedFloat.describe().is_empty());
    assert_ne!(Error::Eof, Error::ExpectedFloat);
}

#[test]
fn test_unsigned_integer_narrow_widths() {
    let mut b = Bytes::new(b"255 ");
    assert_eq!(b.unsigned_integer_u8().unwrap(), 255);
    let mut b = Bytes::new(b"256 ");
    assert_eq!(b.unsigned_integer_u8().unwrap_err(), Error::ExpectedInteger);
    assert_eq!(b.bytes(), b" ");
    let mut b = Bytes::new(b"65536");
    assert_eq!(b.unsigned_integer_u16().unwrap_err(), Error::ExpectedInteger);
    let mut b = Bytes::new(b"70000");
    assert_eq!(b.unsigned_integer_u32().unwrap(), 70000);
}

#[test]
fn test_signed_integer_narrow_widths() {
    let mut b = Bytes::new(b"-127");
    assert_eq!(b.signed_integer_i8().unwrap(), -127);
    let mut b = Bytes::new(b"-128");
    assert_eq!(b.signed_integer_i8().unwrap_err(), Error::ExpectedInteger);
    let mut b = Bytes::new(b"+32767");
    assert_eq!(b.signed_integer_i16().unwrap(), 32767);
    let mut b = Bytes::new(b"-2147483647");
    assert_eq!(b.signed_integer_i32().unwrap(), -2147483647);
}
