//! The lazy sequence of the records of one document.
//!
//! A document is the prelude `{"pairs": [`, then records with a comma
//! between them, then `]}`. The stream hands the records out one pull at a
//! time, in the order of the document, and never goes back: after the
//! closing bracket every pull reports the end, and after a failure every
//! pull reports that failure.

use vstd::prelude::*;
use crate::ascii::{
    COLON, LETTER_A, LETTER_I, LETTER_P, LETTER_R, LETTER_S, OPEN_BRACE, OPEN_BRACKET, QUOTE, SPACE,
};
use crate::error::DecodeError;
use crate::grammar::{
    document_text, records_of, theorem_document_round_trip, well_formed_groups, Entry,
};
use crate::record::{
    lemma_record_step_follows, maybe_consume_dist, pulled, record_step, Dist, DistView,
};
use crate::source::{viewed, ByteSource, SourceView};
use crate::token::{consume, literal_step};
use crate::window::MAX_RECORD_LEN;

verus! {

/// The bytes with which every document begins: `{"pairs": [`.
pub open spec fn prelude() -> Seq<u8> {
    seq![
        OPEN_BRACE,
        QUOTE,
        LETTER_P,
        LETTER_A,
        LETTER_I,
        LETTER_R,
        LETTER_S,
        QUOTE,
        COLON,
        SPACE,
        OPEN_BRACKET,
    ]
}

/// What a [`DistStream`] stands for.
pub struct StreamView {
    /// The source that the records are read from.
    pub source: SourceView,
    /// The failure that ended the sequence, if one did.
    pub failure: Option<DecodeError>,
}

/// The records of a document, decoded one at a time.
pub struct DistStream {
    source: ByteSource,
    failure: Option<DecodeError>,
}

impl View for DistStream {
    type V = StreamView;

    closed spec fn view(&self) -> StreamView {
        StreamView { source: self.source@, failure: self.failure }
    }
}

/// What [`parse_json`] makes of a source that stands for `v`: the stream
/// behind the prelude, if the source begins with the prelude.
pub open spec fn opened(v: SourceView) -> Result<StreamView, DecodeError> {
    match literal_step(v, prelude()).result {
        Ok(()) => Ok(StreamView { source: literal_step(v, prelude()).after, failure: None }),
        Err(e) => Err(e),
    }
}

/// What a pull returns on a stream that stands for `s`.
pub open spec fn pull_result(s: StreamView) -> Result<Option<DistView>, DecodeError> {
    match s.failure {
        Some(e) => Err(e),
        None => record_step(s.source).result,
    }
}

/// What a stream that stands for `s` stands for after a pull.
pub open spec fn pull_after(s: StreamView) -> StreamView {
    match s.failure {
        Some(e) => s,
        None => StreamView {
            source: record_step(s.source).after,
            failure: match record_step(s.source).result {
                Ok(_) => None,
                Err(e) => Some(e),
            },
        },
    }
}

/// The records that a stream that stands for `s` has yet to yield, in
/// order, or the failure that pulling them all runs into.
pub open spec fn remaining(s: StreamView) -> Result<Seq<DistView>, DecodeError>
    decreases s.source.unread.len(),
{
    match pull_result(s) {
        Err(e) => Err(e),
        Ok(None) => Ok(Seq::empty()),
        Ok(Some(dist)) => {
            proof {
                lemma_record_step_follows(s.source);
            }
            match remaining(pull_after(s)) {
                Err(e) => Err(e),
                Ok(rest) => Ok(seq![dist] + rest),
            }
        },
    }
}

/// The records of the document `bytes`, or the failure that decoding it
/// runs into.
pub open spec fn document_records(bytes: Seq<u8>) -> Result<Seq<DistView>, DecodeError> {
    match opened(SourceView { consumed: 0, unread: bytes }) {
        Err(e) => Err(e),
        Ok(s) => remaining(s),
    }
}

/// What `outcome` stands for: the same failure, or the views of the records.
pub open spec fn collected(outcome: Result<Vec<Dist>, DecodeError>) -> Result<
    Seq<DistView>,
    DecodeError,
> {
    match outcome {
        Ok(dists) => Ok(dists@.map_values(|dist: Dist| dist@)),
        Err(e) => Err(e),
    }
}

/// Consumes the prelude of a document and returns the stream of its records.
pub fn parse_json(source: ByteSource) -> (outcome: Result<DistStream, DecodeError>)
    ensures
        viewed(outcome) == opened(source@),
{
    let mut source = source;
    let expected = [
        OPEN_BRACE,
        QUOTE,
        LETTER_P,
        LETTER_A,
        LETTER_I,
        LETTER_R,
        LETTER_S,
        QUOTE,
        COLON,
        SPACE,
        OPEN_BRACKET,
    ];
    match consume(&mut source, expected.as_slice()) {
        Err(e) => Err(e),
        Ok(()) => Ok(DistStream { source, failure: None }),
    }
}

impl DistStream {
    /// Pulls the next record: `Ok(None)` once the closing bracket is reached.
    pub fn next(&mut self) -> (outcome: Result<Option<Dist>, DecodeError>)
        ensures
            pulled(outcome) == pull_result(old(self)@),
            final(self)@ == pull_after(old(self)@),
    {
        match self.failure {
            Some(e) => Err(e),
            None => {
                let outcome = maybe_consume_dist(&mut self.source);
                match outcome {
                    Err(e) => { self.failure = Some(e); },
                    Ok(_) => {},
                }
                outcome
            },
        }
    }

    /// Pulls the next record if the stream holds enough input to tell what
    /// it is, and asks for more input if it does not.
    ///
    /// `input_ended` says that the stream was fed all of the document. While
    /// it was not, and fewer than [`MAX_RECORD_LEN`] bytes are unread, the
    /// result is `None` and the stream stays as it is: the caller feeds it
    /// and tries again. Else the result is what [`DistStream::next`] returns.
    pub fn try_next(&mut self, input_ended: bool) -> (outcome: Option<
        Result<Option<Dist>, DecodeError>,
    >)
        ensures
            outcome is None <==> old(self)@.failure is None && !input_ended && old(
                self,
            )@.source.unread.len() < MAX_RECORD_LEN,
            outcome is None ==> final(self)@ == old(self)@,
            outcome matches Some(pull) ==> pulled(pull) == pull_result(old(self)@) && final(self)@
                == pull_after(old(self)@),
    {
        if self.failure.is_none() && !input_ended && self.source.available() < MAX_RECORD_LEN {
            None
        } else {
            Some(self.next())
        }
    }

    /// Appends `chunk` to the input of the stream, as [`ByteSource::feed`] does.
    pub fn feed(&mut self, chunk: &[u8]) -> (accepted: bool)
        ensures
            accepted == (old(self)@.source.end() + chunk@.len() <= u64::MAX),
            accepted ==> final(self)@ == (StreamView {
                source: old(self)@.source.extended(chunk@),
                failure: old(self)@.failure,
            }),
            !accepted ==> final(self)@ == old(self)@,
    {
        self.source.feed(chunk)
    }

    /// Number of buffered bytes not yet consumed.
    pub fn available(&self) -> (n: usize)
        ensures
            n == self@.source.unread.len(),
    {
        self.source.available()
    }

    /// Offset of the next unread byte.
    pub fn position(&self) -> (at: u64)
        ensures
            at == self@.source.consumed,
    {
        self.source.position()
    }

    /// Pulls until the sequence ends and returns the records, in order.
    pub fn collect(self) -> (outcome: Result<Vec<Dist>, DecodeError>)
        ensures
            collected(outcome) == remaining(self@),
    {
        let mut stream = self;
        let mut dists: Vec<Dist> = Vec::new();
        let ghost whole = remaining(self@);
        loop
            invariant
                match remaining(stream@) {
                    Ok(rest) => whole == Ok::<Seq<DistView>, DecodeError>(
                        dists@.map_values(|dist: Dist| dist@) + rest,
                    ),
                    Err(e) => whole == Err::<Seq<DistView>, DecodeError>(e),
                },
                whole == remaining(self@),
            decreases stream@.source.unread.len(),
        {
            let ghost before = stream@;
            let ghost sofar = dists@.map_values(|dist: Dist| dist@);
            match stream.next() {
                Err(e) => { return Err(e); },
                Ok(None) => {
                    return Ok(dists);
                },
                Ok(Some(dist)) => {
                    dists.push(dist);
                    proof {
                        lemma_record_step_follows(before.source);
                        let rest = remaining(stream@);
                        if rest is Ok {
                            assert(dists@.map_values(|dist: Dist| dist@) + rest->Ok_0 =~= sofar + (
                            seq![dist@] + rest->Ok_0));
                        }
                    }
                },
            }
        }
    }
}

/// Decodes the document `bytes` as a whole.
///
/// A document of well-formed groups gives the records that the groups
/// write, in their order; what any other document gives is told by
/// [`document_records`].
pub fn decode_document(bytes: Vec<u8>) -> (outcome: Result<Vec<Dist>, DecodeError>)
    ensures
        collected(outcome) == document_records(bytes@),
        forall|groups: Seq<Seq<Entry>>|
            well_formed_groups(groups) && #[trigger] document_text(groups) == bytes@
                ==> collected(outcome) == Ok::<Seq<DistView>, DecodeError>(records_of(groups)),
{
    proof {
        assert forall|groups: Seq<Seq<Entry>>|
            well_formed_groups(groups) && #[trigger] document_text(groups)
                == bytes@ implies document_records(bytes@) == Ok::<Seq<DistView>, DecodeError>(
            records_of(groups),
        ) by {
            theorem_document_round_trip(groups);
        }
    }
    match parse_json(ByteSource::from_vec(bytes)) {
        Err(e) => Err(e),
        Ok(stream) => stream.collect(),
    }
}

} // verus!
