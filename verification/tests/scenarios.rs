use pairstream::error::DecodeError;
use pairstream::numeral::Numeral;
use pairstream::record::Dist;
use pairstream::stream::decode_document;

fn numeral(text: &str) -> Numeral {
    Numeral::parse(text.as_bytes()).unwrap()
}

fn dist(x0: &str, y0: &str, x1: &str, y1: &str) -> Dist {
    Dist { x0: numeral(x0), x1: numeral(x1), y0: numeral(y0), y1: numeral(y1) }
}

#[test]
fn single_record_of_zeros() {
    let records = decode_document(b"{\"pairs\": [{\"x0\":0,\"y0\":0,\"x1\":0,\"y1\":0}]}".to_vec()).unwrap();
    assert_eq!(records, vec![dist("0", "0", "0", "0")]);
}

#[test]
fn permuted_keys_decode_as_canonical_order() {
    let permuted = decode_document(b"{\"pairs\": [{\"y0\":10,\"x1\":20,\"x0\":10,\"y1\":20}]}".to_vec()).unwrap();
    let canonical = decode_document(b"{\"pairs\": [{\"x0\":10,\"y0\":10,\"x1\":20,\"y1\":20}]}".to_vec()).unwrap();
    assert_eq!(permuted, vec![dist("10", "10", "20", "20")]);
    assert_eq!(permuted, canonical);
}

#[test]
fn empty_document_has_no_records() {
    let records = decode_document(b"{\"pairs\": []}".to_vec()).unwrap();
    assert_eq!(records.len(), 0);
}

#[test]
fn duplicate_key_is_a_schema_violation() {
    let outcome = decode_document(b"{\"pairs\": [{\"x0\":1,\"x0\":2,\"y0\":3,\"y1\":4}]}".to_vec());
    assert_eq!(outcome, Err(DecodeError::SchemaViolation { position: 20 }));
}
