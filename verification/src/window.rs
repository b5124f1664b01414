//! Why a bounded window of input is enough for each pull.
//!
//! A caller that reads a document piece by piece need not hold the whole of
//! it: a pull looks at no more than [`MAX_RECORD_LEN`] bytes. With that many
//! bytes unread, or with all that is left of the document, a pull comes to
//! what it would come to on the whole document.

use vstd::prelude::*;
use crate::ascii::{CLOSE_BRACE, CLOSE_BRACKET, COLON, COMMA, OPEN_BRACE, QUOTE};
use crate::error::DecodeError;
use crate::numeral::MAX_NUMERAL_LEN;
use crate::record::{field_step, fields_step, lemma_field_step_follows, record_step, Field};
use crate::source::{byte_step, peeked, SourceView, Step};
use crate::token::{
    is_terminator, key_step, lemma_key_step_follows, lemma_literal_step_follows,
    lemma_terminator_from_beyond, lemma_terminator_from_bounds, lemma_terminator_from_first,
    lemma_terminator_from_found, literal_step, number_step, numeral_extent,
};

verus! {

/// The most bytes that one pull looks at: a comma, a brace, and four times
/// a quoted key with its colon, the longest numeral and the byte behind it.
pub const MAX_RECORD_LEN: usize = 146;

/// The input ended where more bytes were required.
pub open spec fn starved<T>(result: Result<T, DecodeError>) -> bool {
    result is Err && result->Err_0 is IOError
}

/// A step on a source that holds `more` behind what another holds comes to
/// what the step on the other comes to, with `more` still unread.
pub open spec fn same_with_more<T>(short: Step<T>, long: Step<T>, more: Seq<u8>) -> bool {
    long.result == short.result && long.after == short.after.extended(more)
}

/// Advancing within what was unread before more came is all the same
/// before and after it came.
proof fn lemma_extended_advance(v: SourceView, more: Seq<u8>, n: nat)
    requires
        n <= v.unread.len(),
    ensures
        v.extended(more).advance(n) == v.advance(n).extended(more),
{
    assert((v.unread + more).skip(n as int) =~= v.unread.skip(n as int) + more);
}

/// More input does not change what requiring a literal comes to, unless
/// the input had run out.
proof fn lemma_literal_stable(v: SourceView, more: Seq<u8>, literal: Seq<u8>)
    requires
        !starved(literal_step(v, literal).result),
    ensures
        same_with_more(literal_step(v, literal), literal_step(v.extended(more), literal), more),
{
    let n = literal.len();
    assert((v.unread + more).take(n as int) =~= v.unread.take(n as int));
    lemma_extended_advance(v, more, n);
}

/// More input does not change what reading a byte comes to, unless the
/// input had run out.
proof fn lemma_byte_stable(v: SourceView, more: Seq<u8>)
    requires
        !starved(byte_step(v).result),
    ensures
        same_with_more(byte_step(v), byte_step(v.extended(more)), more),
{
    lemma_extended_advance(v, more, 1);
}

/// More input does not change what reading a key comes to, unless the
/// input had run out.
proof fn lemma_key_stable(v: SourceView, more: Seq<u8>)
    requires
        !starved(key_step(v).result),
    ensures
        same_with_more(key_step(v), key_step(v.extended(more)), more),
{
    let open = literal_step(v, seq![QUOTE]);
    lemma_literal_stable(v, more, seq![QUOTE]);
    if open.result is Ok {
        let first = byte_step(open.after);
        lemma_byte_stable(open.after, more);
        if first.result is Ok {
            let second = byte_step(first.after);
            lemma_byte_stable(first.after, more);
            if second.result is Ok {
                lemma_literal_stable(second.after, more, seq![QUOTE, COLON]);
            }
        }
    }
}

/// More input does not change what reading a numeral comes to, unless the
/// input had run out.
proof fn lemma_number_stable(v: SourceView, more: Seq<u8>)
    requires
        !starved(number_step(v).result),
    ensures
        same_with_more(number_step(v), number_step(v.extended(more)), more),
{
    let s = v.unread;
    let t = v.unread + more;
    let n = numeral_extent(s);
    lemma_terminator_from_bounds(s, 0);
    lemma_terminator_from_first(s, 0);
    assert forall|j: int| 0 <= j < n implies !is_terminator(#[trigger] t[j]) by {}
    if n < s.len() {
        lemma_terminator_from_found(t, 0, n);
        assert(t.take(n) =~= s.take(n));
        if n > MAX_NUMERAL_LEN {
            lemma_extended_advance(v, more, MAX_NUMERAL_LEN as nat);
        } else {
            lemma_extended_advance(v, more, n as nat);
        }
    } else {
        lemma_terminator_from_beyond(t, 0, n);
        lemma_extended_advance(v, more, MAX_NUMERAL_LEN as nat);
    }
}

/// More input does not change what reading a field comes to, unless the
/// input had run out.
proof fn lemma_field_stable(v: SourceView, slots: Map<Field, Seq<u8>>, more: Seq<u8>)
    requires
        !starved(field_step(v, slots).result),
    ensures
        same_with_more(field_step(v, slots), field_step(v.extended(more), slots), more),
{
    let key = key_step(v);
    lemma_key_stable(v, more);
    if key.result is Ok {
        lemma_number_stable(key.after, more);
    }
}

/// More input does not change what reading the fields of a record comes
/// to, unless the input had run out.
proof fn lemma_fields_stable(v: SourceView, slots: Map<Field, Seq<u8>>, n: nat, more: Seq<u8>)
    requires
        !starved(fields_step(v, slots, n).result),
    ensures
        same_with_more(fields_step(v, slots, n), fields_step(v.extended(more), slots, n), more),
    decreases 3 - n,
{
    let field = field_step(v, slots);
    let mark = seq![if n >= 3 { CLOSE_BRACE } else { COMMA }];
    lemma_field_stable(v, slots, more);
    if field.result is Ok {
        let close = literal_step(field.after, mark);
        lemma_literal_stable(field.after, more, mark);
        if close.result is Ok && n < 3 {
            lemma_fields_stable(close.after, field.result->Ok_0, n + 1, more);
        }
    }
}

/// More input behind what is unread does not change what a pull comes to,
/// unless the pull had run out of input: the same record, end or failure,
/// and the same bytes consumed.
pub proof fn theorem_more_input_changes_nothing(v: SourceView, more: Seq<u8>)
    requires
        !starved(record_step(v).result),
    ensures
        same_with_more(record_step(v), record_step(v.extended(more)), more),
{
    let next = peeked(v);
    if next != Ok::<u8, DecodeError>(CLOSE_BRACKET) {
        let at = if next == Ok::<u8, DecodeError>(COMMA) { v.advance(1) } else { v };
        lemma_extended_advance(v, more, 1);
        let open = literal_step(at, seq![OPEN_BRACE]);
        lemma_literal_stable(at, more, seq![OPEN_BRACE]);
        if open.result is Ok {
            lemma_fields_stable(open.after, Map::empty(), 0, more);
        }
    }
}

/// One byte more than the longest numeral has is enough to read a numeral
/// or to find none.
proof fn lemma_number_window(v: SourceView)
    requires
        v.unread.len() > MAX_NUMERAL_LEN,
    ensures
        !starved(number_step(v).result),
        number_step(v).after.consumed <= v.consumed + MAX_NUMERAL_LEN,
{
    lemma_terminator_from_bounds(v.unread, 0);
}

/// Thirty-six unread bytes are enough to read a field or to find none, and
/// the last of them is not consumed.
proof fn lemma_field_window(v: SourceView, slots: Map<Field, Seq<u8>>)
    requires
        v.unread.len() >= 36,
    ensures
        !starved(field_step(v, slots).result),
        field_step(v, slots).after.consumed <= v.consumed + 35,
{
    let key = key_step(v);
    if key.result is Ok {
        lemma_number_window(key.after);
    }
}

/// Thirty-six unread bytes for each field that is still to come are enough
/// to read the fields of a record or to find them wrong.
proof fn lemma_fields_window(v: SourceView, slots: Map<Field, Seq<u8>>, n: nat)
    requires
        n <= 3,
        v.unread.len() >= 36 * (4 - n),
    ensures
        !starved(fields_step(v, slots, n).result),
    decreases 3 - n,
{
    let field = field_step(v, slots);
    let mark = seq![if n >= 3 { CLOSE_BRACE } else { COMMA }];
    lemma_field_window(v, slots);
    if field.result is Ok {
        let close = literal_step(field.after, mark);
        if close.result is Ok && n < 3 {
            lemma_fields_window(close.after, field.result->Ok_0, n + 1);
        }
    }
}

/// A pull on a source that holds [`MAX_RECORD_LEN`] unread bytes does not
/// run out of input, and comes to what it would come to with any more
/// input behind those bytes.
pub proof fn theorem_window_suffices(v: SourceView, more: Seq<u8>)
    requires
        v.unread.len() >= MAX_RECORD_LEN,
    ensures
        !starved(record_step(v).result),
        same_with_more(record_step(v), record_step(v.extended(more)), more),
{
    let next = peeked(v);
    if next != Ok::<u8, DecodeError>(CLOSE_BRACKET) {
        let at = if next == Ok::<u8, DecodeError>(COMMA) { v.advance(1) } else { v };
        let open = literal_step(at, seq![OPEN_BRACE]);
        if open.result is Ok {
            lemma_fields_window(open.after, Map::empty(), 0);
        }
    }
    theorem_more_input_changes_nothing(v, more);
}

} // verus!
