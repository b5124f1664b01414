//! A streaming decoder for documents of point pairs.
//!
//! A document is an array of records in a fixed, narrow subset of JSON:
//! `{"pairs": [{"x0":1.5,"y0":2,"x1":3,"y1":4},...]}`, without whitespace
//! between its tokens. The decoder walks the bytes once and yields the
//! records one at a time, so that a caller can work on them while the rest
//! of the document is still being read. It accepts the four fields of a
//! record in any order and nothing else: any other input ends the decoding
//! with a failure.
//!
//! - [`source`]: the byte source, a forward-only cursor over buffered input.
//! - [`token`]: structural literals, field names and numerals.
//! - [`numeral`]: what a numeral is.
//! - [`record`]: records, and the assembler that reads one record.
//! - [`stream`]: the sequence of the records of a document.
//! - [`grammar`]: the format as text, and the proofs that the decoder reads
//!   exactly that format.
//! - [`window`]: the proof that a bounded window of input is enough.
//! - [`reduce`]: the rule that an average needs a record.
//! - [`error`]: the failures.
//! - [`ascii`]: the bytes of the format, by name.

pub mod ascii;
pub mod error;
pub mod grammar;
pub mod numeral;
pub mod record;
pub mod reduce;
pub mod source;
pub mod stream;
pub mod token;
pub mod window;
