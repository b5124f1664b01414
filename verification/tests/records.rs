use pairstream::error::DecodeError;
use pairstream::numeral::Numeral;
use pairstream::record::{field_of_key, maybe_consume_dist, Assembly, Dist, Field};
use pairstream::source::ByteSource;

fn source(text: &str) -> ByteSource {
    ByteSource::from_vec(text.as_bytes().to_vec())
}

fn numeral(text: &str) -> Numeral {
    Numeral::parse(text.as_bytes()).unwrap()
}

fn dist(x0: &str, y0: &str, x1: &str, y1: &str) -> Dist {
    Dist { x0: numeral(x0), x1: numeral(x1), y0: numeral(y0), y1: numeral(y1) }
}

fn group(order: &[usize; 4]) -> String {
    let entries = ["\"x0\":1.5", "\"y0\":-2", "\"x1\":3e2", "\"y1\":.25"];
    format!(
        "{{{},{},{},{}}}",
        entries[order[0]], entries[order[1]], entries[order[2]], entries[order[3]]
    )
}

#[test]
fn field_names_are_the_four_keys() {
    assert_eq!(field_of_key(*b"x0"), Some(Field::X0));
    assert_eq!(field_of_key(*b"x1"), Some(Field::X1));
    assert_eq!(field_of_key(*b"y0"), Some(Field::Y0));
    assert_eq!(field_of_key(*b"y1"), Some(Field::Y1));
    assert_eq!(field_of_key(*b"x2"), None);
    assert_eq!(field_of_key(*b"z0"), None);
    assert_eq!(field_of_key(*b"X0"), None);
    assert_eq!(field_of_key(*b"0x"), None);
}

#[test]
fn get_returns_the_field() {
    let d = dist("1", "2", "3", "4");
    assert_eq!(d.get(Field::X0), numeral("1"));
    assert_eq!(d.get(Field::Y0), numeral("2"));
    assert_eq!(d.get(Field::X1), numeral("3"));
    assert_eq!(d.get(Field::Y1), numeral("4"));
}

#[test]
fn an_assembly_fills_each_field_once() {
    let mut assembly = Assembly::new();
    assert!(assembly.set(Field::Y1, numeral("4")));
    assert!(!assembly.set(Field::Y1, numeral("5")));
    assert!(assembly.set(Field::X0, numeral("1")));
    assert!(assembly.set(Field::X1, numeral("3")));
    assert!(assembly.set(Field::Y0, numeral("2")));
    assert_eq!(assembly.finish(), Some(dist("1", "2", "3", "4")));
}

#[test]
fn an_assembly_with_an_empty_field_is_no_record() {
    assert_eq!(Assembly::new().finish(), None);
    let mut assembly = Assembly::new();
    assert!(assembly.set(Field::X0, numeral("1")));
    assert!(assembly.set(Field::X1, numeral("3")));
    assert!(assembly.set(Field::Y0, numeral("2")));
    assert_eq!(assembly.finish(), None);
}

#[test]
fn a_record_is_read_and_nothing_behind_it() {
    let mut r = source("{\"x0\":1,\"y0\":2,\"x1\":3,\"y1\":4}]}");
    assert_eq!(maybe_consume_dist(&mut r), Ok(Some(dist("1", "2", "3", "4"))));
    assert_eq!(r.position(), 29);
    assert_eq!(r.unread(), b"]}");
}

#[test]
fn the_closing_bracket_ends_the_sequence_and_stays_unread() {
    let mut r = source("]}");
    assert_eq!(maybe_consume_dist(&mut r), Ok(None));
    assert_eq!(r.position(), 0);
    assert_eq!(maybe_consume_dist(&mut r), Ok(None));
    assert_eq!(r.unread(), b"]}");
}

#[test]
fn a_comma_may_stand_before_a_record() {
    let mut r = source(",{\"x0\":1,\"y0\":2,\"x1\":3,\"y1\":4},");
    assert_eq!(maybe_consume_dist(&mut r), Ok(Some(dist("1", "2", "3", "4"))));
    assert_eq!(r.position(), 30);
}

#[test]
fn all_twenty_four_orders_give_the_same_record() {
    let expected = dist("1.5", "-2", "3e2", ".25");
    let mut orders = 0;
    for a in 0..4 {
        for b in 0..4 {
            for c in 0..4 {
                for d in 0..4 {
                    let order = [a, b, c, d];
                    let mut seen = [false; 4];
                    for i in order {
                        seen[i] = true;
                    }
                    if seen != [true; 4] {
                        continue;
                    }
                    orders += 1;
                    let text = group(&order);
                    let mut r = source(&text);
                    assert_eq!(maybe_consume_dist(&mut r), Ok(Some(expected)));
                    assert_eq!(r.available(), 0);
                }
            }
        }
    }
    assert_eq!(orders, 24);
}

#[test]
fn every_group_with_a_repeated_field_is_a_schema_violation() {
    let mut groups = 0;
    for a in 0..4 {
        for b in 0..4 {
            for c in 0..4 {
                for d in 0..4 {
                    let order = [a, b, c, d];
                    let mut seen = [false; 4];
                    for i in order {
                        seen[i] = true;
                    }
                    if seen == [true; 4] {
                        continue;
                    }
                    groups += 1;
                    let text = group(&order);
                    let mut r = source(&text);
                    let outcome = maybe_consume_dist(&mut r);
                    assert!(matches!(outcome, Err(DecodeError::SchemaViolation { .. })));
                }
            }
        }
    }
    assert_eq!(groups, 256 - 24);
}

#[test]
fn a_repeated_field_is_reported_at_its_key() {
    let mut r = source("{\"x0\":1,\"y0\":2,\"x0\":3,\"y1\":4}");
    assert_eq!(maybe_consume_dist(&mut r), Err(DecodeError::SchemaViolation { position: 16 }));
    assert_eq!(r.position(), 21);
}

#[test]
fn an_unknown_field_is_a_schema_violation() {
    let mut r = source("{\"x0\":1,\"z0\":2,\"x1\":3,\"y1\":4}");
    assert_eq!(maybe_consume_dist(&mut r), Err(DecodeError::SchemaViolation { position: 9 }));
    let mut q = source("{\"x0\":1,\"y0\":2,\"x1\":3,\"Y1\":4}");
    assert_eq!(maybe_consume_dist(&mut q), Err(DecodeError::SchemaViolation { position: 23 }));
}

#[test]
fn a_missing_field_is_a_schema_violation() {
    let mut r = source("{\"x0\":1,\"y0\":2,\"x1\":3}");
    assert_eq!(maybe_consume_dist(&mut r), Err(DecodeError::SchemaViolation { position: 21 }));
    let mut q = source("{\"x0\":1}");
    assert_eq!(maybe_consume_dist(&mut q), Err(DecodeError::SchemaViolation { position: 7 }));
    let mut p = source("{}");
    assert_eq!(maybe_consume_dist(&mut p), Err(DecodeError::SchemaViolation { position: 1 }));
}

#[test]
fn a_fifth_field_is_a_schema_violation() {
    let mut r = source("{\"x0\":1,\"y0\":2,\"x1\":3,\"y1\":4,\"x0\":5}");
    assert_eq!(maybe_consume_dist(&mut r), Err(DecodeError::SchemaViolation { position: 28 }));
}

#[test]
fn a_group_must_open_with_a_brace() {
    let mut r = source("\"x0\":1,\"y0\":2,\"x1\":3,\"y1\":4}");
    assert_eq!(maybe_consume_dist(&mut r), Err(DecodeError::SchemaViolation { position: 0 }));
    assert_eq!(r.position(), 1);
    let mut q = source(",]");
    assert_eq!(maybe_consume_dist(&mut q), Err(DecodeError::SchemaViolation { position: 1 }));
    let mut p = source(" {");
    assert_eq!(maybe_consume_dist(&mut p), Err(DecodeError::SchemaViolation { position: 0 }));
}

#[test]
fn a_key_must_be_quoted_and_followed_by_a_colon() {
    let mut r = source("{x0\":1,\"y0\":2,\"x1\":3,\"y1\":4}");
    assert_eq!(maybe_consume_dist(&mut r), Err(DecodeError::SchemaViolation { position: 1 }));
    let mut q = source("{\"x0\":1,\"y0:2,\"x1\":3,\"y1\":4}");
    assert_eq!(maybe_consume_dist(&mut q), Err(DecodeError::SchemaViolation { position: 11 }));
    let mut p = source("{\"x0\":1,\"y0\"2,\"x1\":3,\"y1\":4}");
    assert_eq!(maybe_consume_dist(&mut p), Err(DecodeError::SchemaViolation { position: 11 }));
}

#[test]
fn whitespace_is_not_tolerated() {
    let mut r = source("{ \"x0\":1,\"y0\":2,\"x1\":3,\"y1\":4}");
    assert_eq!(maybe_consume_dist(&mut r), Err(DecodeError::SchemaViolation { position: 1 }));
    let mut q = source("{\"x0\": 1,\"y0\":2,\"x1\":3,\"y1\":4}");
    assert_eq!(maybe_consume_dist(&mut q), Err(DecodeError::FloatParseError { position: 6 }));
    let mut p = source("{\"x0\":1, \"y0\":2,\"x1\":3,\"y1\":4}");
    assert_eq!(maybe_consume_dist(&mut p), Err(DecodeError::SchemaViolation { position: 8 }));
}

#[test]
fn a_missing_comma_between_fields_spoils_the_numeral() {
    let mut r = source("{\"x0\":1\"y0\":2,\"x1\":3,\"y1\":4}");
    assert_eq!(maybe_consume_dist(&mut r), Err(DecodeError::FloatParseError { position: 6 }));
}

#[test]
fn the_numeral_is_read_before_the_key_is_judged() {
    let mut r = source("{\"zz\":abc,\"y0\":2,\"x1\":3,\"y1\":4}");
    assert_eq!(maybe_consume_dist(&mut r), Err(DecodeError::FloatParseError { position: 6 }));
}

#[test]
fn a_record_that_the_input_cuts_short_is_an_io_error() {
    let whole = "{\"x0\":1,\"y0\":2,\"x1\":3,\"y1\":4}";
    for cut in 0..whole.len() {
        let mut r = source(&whole[..cut]);
        assert_eq!(
            maybe_consume_dist(&mut r),
            Err(DecodeError::IOError { position: cut as u64 })
        );
        assert_eq!(r.available(), 0);
    }
}

#[test]
fn a_numeral_that_is_too_long_is_a_float_parse_error() {
    let mut r = source("{\"x0\":1234567890123456789012345678901,\"y0\":2,\"x1\":3,\"y1\":4}");
    assert_eq!(maybe_consume_dist(&mut r), Err(DecodeError::FloatParseError { position: 6 }));
}
