//! The field tokenizer: structural literals, field names and numerals.

use vstd::prelude::*;
use vstd::slice::slice_subrange;
use crate::ascii::{CLOSE_BRACE, COLON, COMMA, QUOTE};
use crate::error::DecodeError;
use crate::numeral::{is_numeral, lemma_numeral_alphabet, Numeral, MAX_NUMERAL_LEN};
use crate::source::{
    byte_step, lemma_advance_follows, lemma_follows_chain, lemma_follows_self, viewed, ByteSource,
    SourceView, Step,
};

verus! {

/// A step that fails as `step` did, whatever it was to return.
pub open spec fn failed<T, U>(step: Step<T>) -> Step<U> {
    Step { result: Err(step.result->Err_0), after: step.after }
}

/// What [`consume`] makes of a source that stands for `v`.
///
/// As many bytes as `literal` has are consumed, and they must be `literal`.
/// A source that holds fewer is drained.
pub open spec fn literal_step(v: SourceView, literal: Seq<u8>) -> Step<()> {
    if v.unread.len() < literal.len() {
        Step { result: Err(DecodeError::IOError { position: v.end() as u64 }), after: v.drained() }
    } else if v.unread.take(literal.len() as int) == literal {
        Step { result: Ok(()), after: v.advance(literal.len()) }
    } else {
        Step {
            result: Err(DecodeError::SchemaViolation { position: v.consumed as u64 }),
            after: v.advance(literal.len()),
        }
    }
}

/// Consumes as many bytes as `s` has and requires them to be `s`.
pub fn consume(r: &mut ByteSource, s: &[u8]) -> (outcome: Result<(), DecodeError>)
    ensures
        outcome == literal_step(old(r)@, s@).result,
        final(r)@ == literal_step(old(r)@, s@).after,
{
    let n = s.len();
    let start = r.position();
    if r.available() < n {
        r.drain();
        return Err(DecodeError::IOError { position: r.position() });
    }
    let window = r.unread();
    let mut same = true;
    let mut i: usize = 0;
    assert(window@.take(0) =~= s@.take(0));
    while i < n
        invariant
            n == s@.len(),
            n <= window@.len(),
            i <= n,
            same == (window@.take(i as int) == s@.take(i as int)),
        decreases n - i,
    {
        if window[i] != s[i] {
            same = false;
        }
        i = i + 1;
        proof {
            let a = window@.take(i as int);
            let b = s@.take(i as int);
            assert(window@.take(i - 1) =~= a.take(i - 1));
            assert(s@.take(i - 1) =~= b.take(i - 1));
            if same {
                assert(a =~= b);
            } else {
                assert(b[i - 1] == s@[i - 1]);
            }
        }
    }
    assert(s@.take(n as int) =~= s@);
    r.skip(n);
    if same {
        Ok(())
    } else {
        Err(DecodeError::SchemaViolation { position: start })
    }
}

/// What [`consume_key`] makes of a source that stands for `v`: a quote, two
/// bytes of any value, which are the key, then a quote and a colon.
pub open spec fn key_step(v: SourceView) -> Step<Seq<u8>> {
    let open = literal_step(v, seq![QUOTE]);
    let first = byte_step(open.after);
    let second = byte_step(first.after);
    let close = literal_step(second.after, seq![QUOTE, COLON]);
    if open.result is Err {
        failed(open)
    } else if first.result is Err {
        failed(first)
    } else if second.result is Err {
        failed(second)
    } else if close.result is Err {
        failed(close)
    } else {
        Step { result: Ok(seq![first.result->Ok_0, second.result->Ok_0]), after: close.after }
    }
}

/// Consumes a quoted two-byte field name and the colon after it, and returns
/// the name. Whether the name is one that a record has is not checked here.
pub fn consume_key(r: &mut ByteSource) -> (outcome: Result<[u8; 2], DecodeError>)
    ensures
        viewed(outcome) == key_step(old(r)@).result,
        final(r)@ == key_step(old(r)@).after,
{
    let quote = [QUOTE];
    let close = [QUOTE, COLON];
    assert(quote@ =~= seq![QUOTE]);
    match consume(r, quote.as_slice()) {
        Err(e) => { return Err(e); },
        Ok(()) => {},
    }
    let first = match r.next_byte() {
        Err(e) => { return Err(e); },
        Ok(b) => b,
    };
    let second = match r.next_byte() {
        Err(e) => { return Err(e); },
        Ok(b) => b,
    };
    match consume(r, close.as_slice()) {
        Err(e) => { return Err(e); },
        Ok(()) => {},
    }
    let key = [first, second];
    Ok(key)
}

/// Whether `b` ends a numeral: a comma or a closing brace.
pub open spec fn is_terminator(b: u8) -> bool {
    b == COMMA || b == CLOSE_BRACE
}

/// The first index from `i` on at which `s` holds a terminator, or the
/// length of `s` if there is none.
pub open spec fn terminator_from(s: Seq<u8>, i: int) -> int
    decreases s.len() - i,
{
    if 0 <= i < s.len() && !is_terminator(s[i]) {
        terminator_from(s, i + 1)
    } else {
        i
    }
}

/// Number of bytes at the head of `s` that come before the first terminator.
pub open spec fn numeral_extent(s: Seq<u8>) -> int {
    terminator_from(s, 0)
}

/// What [`consume_float`] makes of a source that stands for `v`.
///
/// The bytes up to the next terminator are consumed and must be a numeral;
/// the terminator stays unread. Where more than [`MAX_NUMERAL_LEN`] bytes
/// come before the terminator, that many are consumed and the step fails;
/// where the input ends before a terminator, the source is drained.
pub open spec fn number_step(v: SourceView) -> Step<Seq<u8>> {
    let n = numeral_extent(v.unread);
    if n > MAX_NUMERAL_LEN {
        Step {
            result: Err(DecodeError::FloatParseError { position: v.consumed as u64 }),
            after: v.advance(MAX_NUMERAL_LEN as nat),
        }
    } else if n == v.unread.len() {
        Step { result: Err(DecodeError::IOError { position: v.end() as u64 }), after: v.drained() }
    } else if is_numeral(v.unread.take(n)) {
        Step { result: Ok(v.unread.take(n)), after: v.advance(n as nat) }
    } else {
        Step {
            result: Err(DecodeError::FloatParseError { position: v.consumed as u64 }),
            after: v.advance(n as nat),
        }
    }
}

/// `terminator_from` never goes back, nor past the end.
pub proof fn lemma_terminator_from_bounds(s: Seq<u8>, i: int)
    requires
        0 <= i <= s.len(),
    ensures
        i <= terminator_from(s, i) <= s.len(),
    decreases s.len() - i,
{
    if i < s.len() && !is_terminator(s[i]) {
        lemma_terminator_from_bounds(s, i + 1);
    }
}

/// Consumes the numeral that ends before the next comma or closing brace.
pub fn consume_float(r: &mut ByteSource) -> (outcome: Result<Numeral, DecodeError>)
    ensures
        viewed(outcome) == number_step(old(r)@).result,
        final(r)@ == number_step(old(r)@).after,
{
    let start = r.position();
    let window = r.unread();
    let limit = window.len();
    let mut n: usize = 0;
    while n < limit && n <= MAX_NUMERAL_LEN && window[n] != COMMA && window[n] != CLOSE_BRACE
        invariant
            limit == window@.len(),
            n <= limit,
            n <= MAX_NUMERAL_LEN + 1,
            numeral_extent(window@) == terminator_from(window@, n as int),
        decreases limit - n,
    {
        n = n + 1;
    }
    proof {
        lemma_terminator_from_bounds(window@, n as int);
    }
    if n > MAX_NUMERAL_LEN {
        r.skip(MAX_NUMERAL_LEN);
        Err(DecodeError::FloatParseError { position: start })
    } else if n == limit {
        r.drain();
        Err(DecodeError::IOError { position: r.position() })
    } else {
        let text = slice_subrange(window, 0, n);
        match Numeral::parse(text) {
            Some(numeral) => {
                r.skip(n);
                Ok(numeral)
            },
            None => {
                r.skip(n);
                Err(DecodeError::FloatParseError { position: start })
            },
        }
    }
}

/// Requiring a literal only consumes.
pub proof fn lemma_literal_step_follows(v: SourceView, literal: Seq<u8>)
    ensures
        literal_step(v, literal).after.follows(v),
{
}

/// Reading a key only consumes.
pub proof fn lemma_key_step_follows(v: SourceView)
    ensures
        key_step(v).after.follows(v),
{
    let open = literal_step(v, seq![QUOTE]);
    let first = byte_step(open.after);
    let second = byte_step(first.after);
    let close = literal_step(second.after, seq![QUOTE, COLON]);
    lemma_follows_self(open.after);
    lemma_follows_chain(v, open.after, first.after);
    lemma_follows_self(first.after);
    lemma_follows_chain(v, first.after, second.after);
    lemma_follows_chain(v, second.after, close.after);
}

/// Reading a numeral only consumes.
pub proof fn lemma_number_step_follows(v: SourceView)
    ensures
        number_step(v).after.follows(v),
{
    lemma_terminator_from_bounds(v.unread, 0);
}

/// A source that begins with a literal yields it, and is left at what
/// comes after.
pub proof fn lemma_literal_accepted(v: SourceView, literal: Seq<u8>, rest: Seq<u8>)
    requires
        v.unread == literal + rest,
    ensures
        literal_step(v, literal) == (Step { result: Ok(()), after: v.advance(literal.len()) }),
        v.advance(literal.len()).unread == rest,
{
    assert((literal + rest).take(literal.len() as int) =~= literal);
}

/// Only a source that begins with a literal yields it.
pub proof fn lemma_literal_inverted(v: SourceView, literal: Seq<u8>)
    requires
        literal_step(v, literal).result is Ok,
    ensures
        v.unread == literal + literal_step(v, literal).after.unread,
        literal_step(v, literal).after == v.advance(literal.len()),
{
}

/// A source that holds a byte other than the one required fails on it.
pub proof fn lemma_byte_refused(v: SourceView, wanted: u8)
    requires
        v.unread.len() > 0,
        v.unread[0] != wanted,
    ensures
        literal_step(v, seq![wanted]).result == Err::<(), DecodeError>(
            DecodeError::SchemaViolation { position: v.consumed as u64 },
        ),
{
    assert(seq![wanted][0] == wanted);
}

/// A source that begins with something other than a quoted key and a colon
/// fails with a schema violation, if it holds enough bytes to tell.
pub proof fn lemma_key_refused(v: SourceView)
    requires
        (v.unread.len() >= 1 && v.unread[0] != QUOTE) || (v.unread.len() >= 5 && (v.unread[3]
            != QUOTE || v.unread[4] != COLON)),
    ensures
        key_step(v).result is Err,
        key_step(v).result->Err_0 is SchemaViolation,
{
    if v.unread[0] != QUOTE {
        lemma_byte_refused(v, QUOTE);
    }
}

/// A source that begins with a quoted key and a colon yields the key, and
/// is left at what comes after the colon.
pub proof fn lemma_key_accepted(v: SourceView, key: Seq<u8>, rest: Seq<u8>)
    requires
        key.len() == 2,
        v.unread == seq![QUOTE] + key + seq![QUOTE, COLON] + rest,
    ensures
        key_step(v) == (Step { result: Ok(key), after: v.advance(5) }),
        v.advance(5).unread == rest,
{
    let open = literal_step(v, seq![QUOTE]);
    assert(v.unread =~= seq![QUOTE] + (key + seq![QUOTE, COLON] + rest));
    lemma_literal_accepted(v, seq![QUOTE], key + seq![QUOTE, COLON] + rest);
    let first = byte_step(open.after);
    let second = byte_step(first.after);
    assert(second.after.unread =~= seq![QUOTE, COLON] + rest);
    lemma_literal_accepted(second.after, seq![QUOTE, COLON], rest);
    assert(seq![first.result->Ok_0, second.result->Ok_0] =~= key);
    assert(v.unread.skip(1).skip(1).skip(1).skip(2) =~= v.unread.skip(5));
}

/// Only a source that begins with a quoted key and a colon yields a key.
pub proof fn lemma_key_inverted(v: SourceView)
    requires
        key_step(v).result is Ok,
    ensures
        key_step(v).result->Ok_0.len() == 2,
        v.unread == seq![QUOTE] + key_step(v).result->Ok_0 + seq![QUOTE, COLON] + key_step(
            v,
        ).after.unread,
        key_step(v).after == v.advance(5),
{
    assert(v.unread.skip(1).skip(1).skip(1).skip(2) =~= v.unread.skip(5));
}

/// Where no terminator comes before index `n` and one stands there, the
/// search from any index up to `n` ends at `n`.
pub proof fn lemma_terminator_from_found(s: Seq<u8>, i: int, n: int)
    requires
        0 <= i <= n < s.len(),
        forall|j: int| i <= j < n ==> !is_terminator(#[trigger] s[j]),
        is_terminator(s[n]),
    ensures
        terminator_from(s, i) == n,
    decreases n - i,
{
    if i < n {
        lemma_terminator_from_found(s, i + 1, n);
    }
}

/// Where no terminator comes before index `n`, the search from any index
/// up to `n` does not end before `n`.
pub proof fn lemma_terminator_from_beyond(s: Seq<u8>, i: int, n: int)
    requires
        0 <= i <= n <= s.len(),
        forall|j: int| i <= j < n ==> !is_terminator(#[trigger] s[j]),
    ensures
        terminator_from(s, i) >= n,
    decreases n - i,
{
    if i < n {
        lemma_terminator_from_beyond(s, i + 1, n);
    } else {
        lemma_terminator_from_bounds(s, i);
    }
}

/// No terminator stands between index `i` and where the search from `i` ends.
pub proof fn lemma_terminator_from_first(s: Seq<u8>, i: int)
    requires
        0 <= i <= s.len(),
    ensures
        forall|j: int| i <= j < terminator_from(s, i) ==> !is_terminator(#[trigger] s[j]),
        terminator_from(s, i) < s.len() ==> is_terminator(s[terminator_from(s, i)]),
    decreases s.len() - i,
{
    if i < s.len() && !is_terminator(s[i]) {
        lemma_terminator_from_first(s, i + 1);
    }
}

/// A source that begins with a numeral of at most [`MAX_NUMERAL_LEN`] bytes
/// and a terminator yields the numeral, and is left at the terminator.
pub proof fn lemma_number_accepted(v: SourceView, value: Seq<u8>, rest: Seq<u8>)
    requires
        is_numeral(value),
        value.len() <= MAX_NUMERAL_LEN,
        rest.len() > 0,
        is_terminator(rest[0]),
        v.unread == value + rest,
    ensures
        number_step(v) == (Step { result: Ok(value), after: v.advance(value.len()) }),
        v.advance(value.len()).unread == rest,
{
    lemma_numeral_alphabet(value);
    let n = value.len() as int;
    assert forall|j: int| 0 <= j < n implies !is_terminator(#[trigger] v.unread[j]) by {}
    lemma_terminator_from_found(v.unread, 0, n);
    assert(v.unread.take(n) =~= value);
}

/// Only a source that begins with a numeral of at most [`MAX_NUMERAL_LEN`]
/// bytes and a terminator yields a numeral.
pub proof fn lemma_number_inverted(v: SourceView)
    requires
        number_step(v).result is Ok,
    ensures
        is_numeral(number_step(v).result->Ok_0),
        number_step(v).result->Ok_0.len() <= MAX_NUMERAL_LEN,
        number_step(v).after.unread.len() > 0,
        is_terminator(number_step(v).after.unread[0]),
        v.unread == number_step(v).result->Ok_0 + number_step(v).after.unread,
        number_step(v).after == v.advance(number_step(v).result->Ok_0.len()),
{
    lemma_terminator_from_bounds(v.unread, 0);
    lemma_terminator_from_first(v.unread, 0);
}

} // verus!
