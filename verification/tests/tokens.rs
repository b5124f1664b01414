use pairstream::error::DecodeError;
use pairstream::numeral::Numeral;
use pairstream::source::ByteSource;
use pairstream::token::{consume, consume_float, consume_key};

fn source(text: &str) -> ByteSource {
    ByteSource::from_vec(text.as_bytes().to_vec())
}

#[test]
fn a_new_source_is_empty() {
    let r = ByteSource::new();
    assert_eq!(r.available(), 0);
    assert_eq!(r.position(), 0);
    assert_eq!(r.peek(), Err(DecodeError::IOError { position: 0 }));
}

#[test]
fn peek_does_not_consume() {
    let r = source("ab");
    assert_eq!(r.peek(), Ok(b'a'));
    assert_eq!(r.peek(), Ok(b'a'));
    assert_eq!(r.available(), 2);
    assert_eq!(r.position(), 0);
    assert_eq!(r.unread(), b"ab");
}

#[test]
fn next_byte_consumes_one_byte() {
    let mut r = source("ab");
    assert_eq!(r.next_byte(), Ok(b'a'));
    assert_eq!(r.position(), 1);
    assert_eq!(r.next_byte(), Ok(b'b'));
    assert_eq!(r.next_byte(), Err(DecodeError::IOError { position: 2 }));
    assert_eq!(r.position(), 2);
}

#[test]
fn feed_appends_and_keeps_the_position() {
    let mut r = source("abc");
    assert_eq!(r.next_byte(), Ok(b'a'));
    assert!(r.feed(b"de"));
    assert_eq!(r.position(), 1);
    assert_eq!(r.unread(), b"bcde");
    assert_eq!(r.next_byte(), Ok(b'b'));
    assert!(r.feed(b""));
    assert_eq!(r.position(), 2);
    assert_eq!(r.unread(), b"cde");
}

#[test]
fn consume_accepts_the_literal_and_passes_it() {
    let mut r = source("{\"pairs\": [rest");
    assert_eq!(consume(&mut r, b"{\"pairs\": ["), Ok(()));
    assert_eq!(r.position(), 11);
    assert_eq!(r.unread(), b"rest");
}

#[test]
fn consume_of_nothing_consumes_nothing() {
    let mut r = source("ab");
    assert_eq!(consume(&mut r, b""), Ok(()));
    assert_eq!(r.position(), 0);
}

#[test]
fn consume_rejects_other_bytes_and_passes_them() {
    let mut r = source("xab:rest");
    assert_eq!(r.next_byte(), Ok(b'x'));
    assert_eq!(consume(&mut r, b"\":"), Err(DecodeError::SchemaViolation { position: 1 }));
    assert_eq!(r.position(), 3);
    assert_eq!(r.unread(), b":rest");
}

#[test]
fn consume_is_case_sensitive() {
    let mut r = source("{\"PAIRS\": [");
    assert_eq!(consume(&mut r, b"{\"pairs\": ["), Err(DecodeError::SchemaViolation { position: 0 }));
}

#[test]
fn consume_fails_on_short_input_and_drains_it() {
    let mut r = source("{\"pa");
    assert_eq!(consume(&mut r, b"{\"pairs\": ["), Err(DecodeError::IOError { position: 4 }));
    assert_eq!(r.available(), 0);
    assert_eq!(r.position(), 4);
}

#[test]
fn consume_key_returns_the_two_bytes() {
    let mut r = source("\"x0\":1,");
    assert_eq!(consume_key(&mut r), Ok([b'x', b'0']));
    assert_eq!(r.position(), 5);
    assert_eq!(r.unread(), b"1,");
}

#[test]
fn consume_key_does_not_judge_the_name() {
    let mut r = source("\"zz\":1,");
    assert_eq!(consume_key(&mut r), Ok([b'z', b'z']));
    let mut q = source("\"\"\"\":1,");
    assert_eq!(consume_key(&mut q), Ok([b'"', b'"']));
}

#[test]
fn consume_key_needs_the_opening_quote() {
    let mut r = source("x0\":1,");
    assert_eq!(consume_key(&mut r), Err(DecodeError::SchemaViolation { position: 0 }));
    assert_eq!(r.position(), 1);
}

#[test]
fn consume_key_needs_the_closing_quote_and_colon() {
    let mut r = source("\"x0:1,");
    assert_eq!(consume_key(&mut r), Err(DecodeError::SchemaViolation { position: 3 }));
    assert_eq!(r.position(), 5);
    let mut q = source("\"x0\"1,");
    assert_eq!(consume_key(&mut q), Err(DecodeError::SchemaViolation { position: 3 }));
    let mut p = source("\"x0\" :1,");
    assert_eq!(consume_key(&mut p), Err(DecodeError::SchemaViolation { position: 3 }));
}

#[test]
fn consume_key_fails_where_the_input_ends() {
    assert_eq!(consume_key(&mut source("")), Err(DecodeError::IOError { position: 0 }));
    assert_eq!(consume_key(&mut source("\"")), Err(DecodeError::IOError { position: 1 }));
    assert_eq!(consume_key(&mut source("\"x")), Err(DecodeError::IOError { position: 2 }));
    assert_eq!(consume_key(&mut source("\"x0")), Err(DecodeError::IOError { position: 3 }));
    assert_eq!(consume_key(&mut source("\"x0\"")), Err(DecodeError::IOError { position: 4 }));
}

#[test]
fn consume_float_stops_before_the_comma() {
    let mut r = source("-12.5e3,\"y0\"");
    assert_eq!(consume_float(&mut r), Ok(Numeral::parse(b"-12.5e3").unwrap()));
    assert_eq!(r.position(), 7);
    assert_eq!(r.peek(), Ok(b','));
}

#[test]
fn consume_float_stops_before_the_closing_brace() {
    let mut r = source("42}]}");
    assert_eq!(consume_float(&mut r), Ok(Numeral::parse(b"42").unwrap()));
    assert_eq!(r.unread(), b"}]}");
}

#[test]
fn consume_float_rejects_what_is_no_numeral() {
    let mut r = source("12a,");
    assert_eq!(consume_float(&mut r), Err(DecodeError::FloatParseError { position: 0 }));
    assert_eq!(r.position(), 3);
    assert_eq!(consume_float(&mut source(",")), Err(DecodeError::FloatParseError { position: 0 }));
    assert_eq!(consume_float(&mut source("}")), Err(DecodeError::FloatParseError { position: 0 }));
}

#[test]
fn consume_float_does_not_tolerate_whitespace() {
    assert_eq!(consume_float(&mut source(" 1,")), Err(DecodeError::FloatParseError { position: 0 }));
    assert_eq!(consume_float(&mut source("1 ,")), Err(DecodeError::FloatParseError { position: 0 }));
    assert_eq!(consume_float(&mut source("1\n,")), Err(DecodeError::FloatParseError { position: 0 }));
}

#[test]
fn consume_float_accepts_thirty_bytes() {
    let mut r = source("123456789012345678901234567890,");
    let numeral = consume_float(&mut r).unwrap();
    assert_eq!(numeral.as_bytes(), b"123456789012345678901234567890");
    assert_eq!(r.position(), 30);
}

#[test]
fn consume_float_refuses_more_than_thirty_bytes() {
    let mut r = source("1234567890123456789012345678901,");
    assert_eq!(consume_float(&mut r), Err(DecodeError::FloatParseError { position: 0 }));
    assert_eq!(r.position(), 30);
    let mut q = source("1234567890123456789012345678901234567890");
    assert_eq!(consume_float(&mut q), Err(DecodeError::FloatParseError { position: 0 }));
    assert_eq!(q.position(), 30);
}

#[test]
fn consume_float_fails_where_the_input_ends() {
    let mut r = source("12");
    assert_eq!(consume_float(&mut r), Err(DecodeError::IOError { position: 2 }));
    assert_eq!(r.available(), 0);
    let mut q = source("123456789012345678901234567890");
    assert_eq!(consume_float(&mut q), Err(DecodeError::IOError { position: 30 }));
    assert_eq!(consume_float(&mut source("")), Err(DecodeError::IOError { position: 0 }));
}

#[test]
fn positions_count_from_the_start_of_the_input() {
    let mut r = source("abc12x,");
    assert_eq!(consume(&mut r, b"abc"), Ok(()));
    assert!(r.feed(b"more"));
    assert_eq!(consume_float(&mut r), Err(DecodeError::FloatParseError { position: 3 }));
    assert_eq!(r.position(), 6);
}
