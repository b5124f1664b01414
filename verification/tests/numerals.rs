use pairstream::numeral::{is_numeral_text, Numeral, MAX_NUMERAL_LEN};

fn accepted(text: &str) -> bool {
    is_numeral_text(text.as_bytes())
}

#[test]
fn plain_and_signed_integers_are_numerals() {
    assert!(accepted("0"));
    assert!(accepted("10"));
    assert!(accepted("-7"));
    assert!(accepted("+7"));
    assert!(accepted("0012"));
}

#[test]
fn fractions_are_numerals() {
    assert!(accepted("1.5"));
    assert!(accepted("-179.99999"));
    assert!(accepted("5."));
    assert!(accepted(".5"));
    assert!(accepted("+.5"));
}

#[test]
fn exponents_are_numerals() {
    assert!(accepted("1e10"));
    assert!(accepted("1E10"));
    assert!(accepted("1.5e-3"));
    assert!(accepted("1.5E+3"));
    assert!(accepted(".5e0"));
    assert!(accepted("5.e1"));
}

#[test]
fn text_without_a_digit_in_the_mantissa_is_no_numeral() {
    assert!(!accepted(""));
    assert!(!accepted("-"));
    assert!(!accepted("+"));
    assert!(!accepted("."));
    assert!(!accepted("-."));
    assert!(!accepted("e5"));
    assert!(!accepted(".e5"));
}

#[test]
fn an_exponent_needs_a_digit() {
    assert!(!accepted("1e"));
    assert!(!accepted("1e+"));
    assert!(!accepted("1e-"));
    assert!(!accepted("1ee5"));
    assert!(!accepted("1e5.0"));
    assert!(!accepted("1e5e5"));
}

#[test]
fn stray_bytes_make_no_numeral() {
    assert!(!accepted(" 1"));
    assert!(!accepted("1 "));
    assert!(!accepted("1 2"));
    assert!(!accepted("1.2.3"));
    assert!(!accepted("--1"));
    assert!(!accepted("1-"));
    assert!(!accepted("0x10"));
    assert!(!accepted("1,5"));
    assert!(!accepted("1_000"));
    assert!(!accepted("\"1\""));
}

#[test]
fn names_of_special_values_are_no_numerals() {
    assert!(!accepted("inf"));
    assert!(!accepted("-inf"));
    assert!(!accepted("infinity"));
    assert!(!accepted("nan"));
    assert!(!accepted("NaN"));
}

#[test]
fn bytes_outside_ascii_make_no_numeral() {
    assert!(!is_numeral_text(&[0x31, 0xc3, 0xa9]));
    assert!(!is_numeral_text(&[0xff]));
}

#[test]
fn parse_keeps_the_text() {
    let numeral = Numeral::parse(b"-12.5e3").unwrap();
    assert_eq!(numeral.as_bytes(), b"-12.5e3");
    assert_eq!(numeral.len(), 7);
}

#[test]
fn parse_refuses_what_is_no_numeral() {
    assert_eq!(Numeral::parse(b"12a"), None);
    assert_eq!(Numeral::parse(b""), None);
}

#[test]
fn parse_accepts_up_to_the_longest_numeral() {
    let longest = "123456789012345678901234567890";
    assert_eq!(longest.len(), MAX_NUMERAL_LEN);
    let numeral = Numeral::parse(longest.as_bytes()).unwrap();
    assert_eq!(numeral.as_bytes(), longest.as_bytes());
    assert_eq!(numeral.len(), 30);
    let too_long = "1234567890123456789012345678901";
    assert!(accepted(too_long));
    assert_eq!(Numeral::parse(too_long.as_bytes()), None);
}

#[test]
fn numerals_with_the_same_text_are_equal() {
    assert_eq!(Numeral::parse(b"10"), Numeral::parse(b"10"));
    assert_ne!(Numeral::parse(b"10"), Numeral::parse(b"10.0"));
    assert_ne!(Numeral::parse(b"1"), Numeral::parse(b"10"));
}

#[test]
fn every_numeral_reads_as_a_double() {
    let texts = [
        "0", "-0", "+1", "10", "1.5", "5.", ".5", "-.5", "1e10", "1E-10", "1.5e+300", "9e999",
        "123456789012345678901234567890", "0.000000000000000000000000001",
    ];
    for text in texts {
        let numeral = Numeral::parse(text.as_bytes()).unwrap();
        let read = std::str::from_utf8(numeral.as_bytes()).unwrap().parse::<f64>();
        assert!(read.is_ok());
    }
    assert_eq!(
        std::str::from_utf8(Numeral::parse(b"-12.5e3").unwrap().as_bytes())
            .unwrap()
            .parse::<f64>(),
        Ok(-12500.0)
    );
}
