use pairstream::error::DecodeError;
use pairstream::numeral::Numeral;
use pairstream::record::Dist;
use pairstream::reduce::divisor;
use pairstream::source::ByteSource;
use pairstream::stream::{decode_document, parse_json, DistStream};
use pairstream::window::MAX_RECORD_LEN;

fn numeral(text: &str) -> Numeral {
    Numeral::parse(text.as_bytes()).unwrap()
}

fn dist(x0: &str, y0: &str, x1: &str, y1: &str) -> Dist {
    Dist { x0: numeral(x0), x1: numeral(x1), y0: numeral(y0), y1: numeral(y1) }
}

fn open(text: &str) -> DistStream {
    parse_json(ByteSource::from_vec(text.as_bytes().to_vec())).unwrap()
}

const THREE: &str = "{\"pairs\": [{\"x0\":1,\"y0\":2,\"x1\":3,\"y1\":4},{\"y1\":8,\"x1\":7,\"y0\":6,\"x0\":5},{\"x0\":-9.5,\"y0\":1e1,\"x1\":.5,\"y1\":0}]}";

fn three() -> Vec<Dist> {
    vec![dist("1", "2", "3", "4"), dist("5", "6", "7", "8"), dist("-9.5", "1e1", ".5", "0")]
}

#[test]
fn parse_json_consumes_the_prelude() {
    let stream = open("{\"pairs\": []}");
    assert_eq!(stream.position(), 11);
    assert_eq!(stream.available(), 2);
}

#[test]
fn parse_json_rejects_another_prelude() {
    let outcome = parse_json(ByteSource::from_vec(b"{\"pairs\":[{\"x0\":1}]}".to_vec()));
    assert!(matches!(outcome, Err(DecodeError::SchemaViolation { position: 0 })));
    let outcome = parse_json(ByteSource::from_vec(b"[{\"pairs\": [".to_vec()));
    assert!(matches!(outcome, Err(DecodeError::SchemaViolation { position: 0 })));
}

#[test]
fn parse_json_fails_on_a_document_shorter_than_the_prelude() {
    let outcome = parse_json(ByteSource::from_vec(b"{\"pairs\"".to_vec()));
    assert!(matches!(outcome, Err(DecodeError::IOError { position: 8 })));
    let outcome = parse_json(ByteSource::new());
    assert!(matches!(outcome, Err(DecodeError::IOError { position: 0 })));
}

#[test]
fn records_come_in_the_order_of_the_document() {
    let mut stream = open(THREE);
    assert_eq!(stream.next(), Ok(Some(dist("1", "2", "3", "4"))));
    assert_eq!(stream.next(), Ok(Some(dist("5", "6", "7", "8"))));
    assert_eq!(stream.next(), Ok(Some(dist("-9.5", "1e1", ".5", "0"))));
    assert_eq!(stream.next(), Ok(None));
}

#[test]
fn an_exhausted_stream_stays_exhausted() {
    let mut stream = open("{\"pairs\": []}");
    assert_eq!(stream.next(), Ok(None));
    assert_eq!(stream.next(), Ok(None));
    assert_eq!(stream.position(), 11);
}

#[test]
fn a_failed_stream_keeps_failing_the_same_way() {
    let mut stream = open("{\"pairs\": [{\"x0\":1,\"y0\":2,\"x1\":3,\"y1\":4},{\"x0\":1,\"q0\":2,\"x1\":3,\"y1\":4},{\"x0\":1,\"y0\":2,\"x1\":3,\"y1\":4}]}");
    assert_eq!(stream.next(), Ok(Some(dist("1", "2", "3", "4"))));
    let failure = Err(DecodeError::SchemaViolation { position: 50 });
    assert_eq!(stream.next(), failure);
    let at = stream.position();
    assert_eq!(stream.next(), failure);
    assert_eq!(stream.next(), failure);
    assert_eq!(stream.position(), at);
}

#[test]
fn collect_returns_all_records_in_order() {
    assert_eq!(open(THREE).collect(), Ok(three()));
    assert_eq!(decode_document(THREE.as_bytes().to_vec()), Ok(three()));
}

#[test]
fn collect_returns_what_is_left() {
    let mut stream = open(THREE);
    assert_eq!(stream.next(), Ok(Some(dist("1", "2", "3", "4"))));
    assert_eq!(stream.collect(), Ok(three()[1..].to_vec()));
}

#[test]
fn collect_fails_where_a_pull_fails() {
    let outcome = decode_document(b"{\"pairs\": [{\"x0\":1,\"y0\":2,\"x1\":3,\"y1\":4},{\"x0\":1}]}".to_vec());
    assert_eq!(outcome, Err(DecodeError::SchemaViolation { position: 48 }));
}

#[test]
fn a_document_without_its_end_is_an_io_error() {
    let outcome = decode_document(b"{\"pairs\": [{\"x0\":1,\"y0\":2,\"x1\":3,\"y1\":4}".to_vec());
    assert_eq!(outcome, Err(DecodeError::IOError { position: 40 }));
    assert_eq!(decode_document(b"{\"pairs\": [".to_vec()), Err(DecodeError::IOError { position: 11 }));
}

#[test]
fn what_stands_behind_the_closing_bracket_is_not_read() {
    assert_eq!(decode_document(b"{\"pairs\": []".to_vec()), Ok(vec![]));
    assert_eq!(decode_document(b"{\"pairs\": []} trailing".to_vec()), Ok(vec![]));
}

#[test]
fn a_document_may_be_fed_byte_by_byte() {
    let bytes = THREE.as_bytes();
    let mut source = ByteSource::new();
    let mut fed = 0;
    while fed < 11 {
        assert!(source.feed(&bytes[fed..fed + 1]));
        fed += 1;
    }
    let mut stream = parse_json(source).unwrap();
    let mut records = Vec::new();
    loop {
        match stream.try_next(fed == bytes.len()) {
            None => {
                assert!(stream.feed(&bytes[fed..fed + 1]));
                fed += 1;
            }
            Some(Ok(Some(record))) => records.push(record),
            Some(Ok(None)) => break,
            Some(Err(e)) => panic!("{:?}", e),
        }
    }
    assert_eq!(records, three());
}

#[test]
fn a_window_of_the_longest_record_is_enough() {
    let long = "123456789012345678901234567890";
    let group = format!("{{\"x0\":{long},\"y0\":{long},\"x1\":{long},\"y1\":{long}}}");
    assert_eq!(group.len() + 1, MAX_RECORD_LEN);
    let mut text = String::from("{\"pairs\": [");
    for i in 0..50 {
        if i > 0 {
            text.push(',');
        }
        text.push_str(&group);
    }
    text.push_str("]}");
    let bytes = text.as_bytes();
    let whole = decode_document(bytes.to_vec()).unwrap();
    assert_eq!(whole.len(), 50);
    for chunk in [1usize, 7, 64, 146, 1000] {
        let mut source = ByteSource::new();
        let mut fed = 0;
        while fed < bytes.len() && source.available() < 11 {
            let upto = (fed + chunk).min(bytes.len());
            assert!(source.feed(&bytes[fed..upto]));
            fed = upto;
        }
        let mut stream = parse_json(source).unwrap();
        let mut records = Vec::new();
        loop {
            match stream.try_next(fed == bytes.len()) {
                None => {
                    let upto = (fed + chunk).min(bytes.len());
                    assert!(stream.feed(&bytes[fed..upto]));
                    fed = upto;
                    assert!(stream.available() < MAX_RECORD_LEN + chunk);
                }
                Some(Ok(Some(record))) => records.push(record),
                Some(Ok(None)) => break,
                Some(Err(e)) => panic!("{:?}", e),
            }
        }
        assert_eq!(records, whole);
    }
}

#[test]
fn try_next_reports_a_failure_at_once() {
    let mut stream = open("{\"pairs\": [{\"x0\":1,\"x0\":2,\"y0\":3,\"y1\":4}]}");
    let failure = Err(DecodeError::SchemaViolation { position: 20 });
    assert_eq!(stream.try_next(true), Some(failure));
    assert_eq!(stream.try_next(false), Some(failure));
}

#[test]
fn no_records_have_no_average() {
    let records = decode_document(b"{\"pairs\": []}".to_vec()).unwrap();
    assert_eq!(divisor(records.len()), Err(DecodeError::EmptyInputError));
}

#[test]
fn some_records_are_averaged_over_their_number() {
    assert_eq!(divisor(1), Ok(1));
    assert_eq!(divisor(three().len()), Ok(3));
    assert_eq!(divisor(usize::MAX), Ok(usize::MAX));
}
