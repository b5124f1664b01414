//! Records and the record assembler.
//!
//! A record is two points, each a longitude `x` and a latitude `y` in
//! degrees, written as four named numerals in any order. The assembler reads
//! one record per call and fills each field from the numeral that carries its
//! name; a name that is not a field's, or that comes a second time, ends the
//! decoding.

use vstd::prelude::*;
use crate::ascii::{
    CLOSE_BRACE, CLOSE_BRACKET, COMMA, DIGIT_ONE, DIGIT_ZERO, LETTER_X, LETTER_Y, OPEN_BRACE,
};
use crate::error::DecodeError;
use crate::numeral::Numeral;
use crate::source::{
    lemma_advance_follows, lemma_follows_chain, lemma_follows_self, peeked, ByteSource, SourceView,
    Step,
};
use crate::token::{
    consume, consume_float, consume_key, failed, key_step, lemma_key_step_follows,
    lemma_literal_step_follows, lemma_number_step_follows, literal_step, number_step,
};

verus! {

/// The four fields of a record.
#[derive(Clone, Copy, Debug, PartialEq, Eq, Structural)]
pub enum Field {
    X0,
    X1,
    Y0,
    Y1,
}

/// The two bytes by which a document names `field`.
pub open spec fn field_name(field: Field) -> Seq<u8> {
    match field {
        Field::X0 => seq![LETTER_X, DIGIT_ZERO],
        Field::X1 => seq![LETTER_X, DIGIT_ONE],
        Field::Y0 => seq![LETTER_Y, DIGIT_ZERO],
        Field::Y1 => seq![LETTER_Y, DIGIT_ONE],
    }
}

/// The field whose name is `key`, if there is one.
pub open spec fn field_named(key: Seq<u8>) -> Option<Field> {
    if key == field_name(Field::X0) {
        Some(Field::X0)
    } else if key == field_name(Field::X1) {
        Some(Field::X1)
    } else if key == field_name(Field::Y0) {
        Some(Field::Y0)
    } else if key == field_name(Field::Y1) {
        Some(Field::Y1)
    } else {
        None
    }
}

/// The field whose name is `key`, if there is one.
pub fn field_of_key(key: [u8; 2]) -> (field: Option<Field>)
    ensures
        field == field_named(key@),
{
    let letter = key[0];
    let digit = key[1];
    proof {
        assert(key@ =~= seq![letter, digit]);
    }
    if letter == LETTER_X && digit == DIGIT_ZERO {
        Some(Field::X0)
    } else if letter == LETTER_X && digit == DIGIT_ONE {
        Some(Field::X1)
    } else if letter == LETTER_Y && digit == DIGIT_ZERO {
        Some(Field::Y0)
    } else if letter == LETTER_Y && digit == DIGIT_ONE {
        Some(Field::Y1)
    } else {
        None
    }
}

/// A record: the coordinates of point 0 and point 1, each as the numeral
/// that the document gave for it.
#[derive(Clone, Copy, Debug, PartialEq, Eq)]
pub struct Dist {
    pub x0: Numeral,
    pub x1: Numeral,
    pub y0: Numeral,
    pub y1: Numeral,
}

/// What a [`Dist`] stands for: the text of each of its four numerals.
pub struct DistView {
    pub x0: Seq<u8>,
    pub x1: Seq<u8>,
    pub y0: Seq<u8>,
    pub y1: Seq<u8>,
}

impl DistView {
    /// The text of `field`.
    pub open spec fn get(self, field: Field) -> Seq<u8> {
        match field {
            Field::X0 => self.x0,
            Field::X1 => self.x1,
            Field::Y0 => self.y0,
            Field::Y1 => self.y1,
        }
    }
}

impl View for Dist {
    type V = DistView;

    open spec fn view(&self) -> DistView {
        DistView { x0: self.x0@, x1: self.x1@, y0: self.y0@, y1: self.y1@ }
    }
}

impl Dist {
    /// The numeral of `field`.
    pub fn get(&self, field: Field) -> (numeral: Numeral)
        ensures
            numeral@ == self@.get(field),
    {
        match field {
            Field::X0 => self.x0,
            Field::X1 => self.x1,
            Field::Y0 => self.y0,
            Field::Y1 => self.y1,
        }
    }
}

/// The record whose fields are those of `slots`.
pub open spec fn assembled(slots: Map<Field, Seq<u8>>) -> DistView {
    DistView {
        x0: slots[Field::X0],
        x1: slots[Field::X1],
        y0: slots[Field::Y0],
        y1: slots[Field::Y1],
    }
}

/// Number of fields that `slots` holds.
pub open spec fn filled(slots: Map<Field, Seq<u8>>) -> nat {
    let x0: nat = if slots.dom().contains(Field::X0) { 1 } else { 0 };
    let x1: nat = if slots.dom().contains(Field::X1) { 1 } else { 0 };
    let y0: nat = if slots.dom().contains(Field::Y0) { 1 } else { 0 };
    let y1: nat = if slots.dom().contains(Field::Y1) { 1 } else { 0 };
    x0 + x1 + y0 + y1
}

/// A record in the making: one slot for each field, each filled at most once.
pub struct Assembly {
    x0: Option<Numeral>,
    x1: Option<Numeral>,
    y0: Option<Numeral>,
    y1: Option<Numeral>,
}

impl Assembly {
    spec fn slot(self, field: Field) -> Option<Numeral> {
        match field {
            Field::X0 => self.x0,
            Field::X1 => self.x1,
            Field::Y0 => self.y0,
            Field::Y1 => self.y1,
        }
    }
}

impl View for Assembly {
    type V = Map<Field, Seq<u8>>;

    /// The fields that are filled, each with the text of its numeral.
    closed spec fn view(&self) -> Map<Field, Seq<u8>> {
        Map::new(|field: Field| self.slot(field) is Some, |field: Field| self.slot(field)->Some_0@)
    }
}

impl Assembly {
    /// An assembly with no field filled.
    pub fn new() -> (assembly: Assembly)
        ensures
            assembly@ == Map::<Field, Seq<u8>>::empty(),
    {
        Assembly { x0: None, x1: None, y0: None, y1: None }
    }

    /// Fills `field` with `value` if it is empty, and says whether it was.
    pub fn set(&mut self, field: Field, value: Numeral) -> (fresh: bool)
        ensures
            fresh == !old(self)@.dom().contains(field),
            fresh ==> final(self)@ == old(self)@.insert(field, value@),
            !fresh ==> final(self)@ == old(self)@,
    {
        let fresh = match field {
            Field::X0 => self.x0.is_none(),
            Field::X1 => self.x1.is_none(),
            Field::Y0 => self.y0.is_none(),
            Field::Y1 => self.y1.is_none(),
        };
        if fresh {
            match field {
                Field::X0 => { self.x0 = Some(value); },
                Field::X1 => { self.x1 = Some(value); },
                Field::Y0 => { self.y0 = Some(value); },
                Field::Y1 => { self.y1 = Some(value); },
            }
        }
        fresh
    }

    /// The record, once all four fields are filled.
    pub fn finish(self) -> (dist: Option<Dist>)
        ensures
            dist is Some <==> filled(self@) == 4,
            dist matches Some(d) ==> d@ == assembled(self@),
    {
        match (self.x0, self.x1, self.y0, self.y1) {
            (Some(x0), Some(x1), Some(y0), Some(y1)) => Some(Dist { x0, x1, y0, y1 }),
            _ => None,
        }
    }
}

/// What reading one field makes of a source that stands for `v`, for a
/// record of which `slots` are filled: a key and a numeral are consumed, and
/// the numeral fills the slot that the key names. The step fails, after both
/// were consumed, if the key names no field or names one in `slots`.
pub open spec fn field_step(v: SourceView, slots: Map<Field, Seq<u8>>) -> Step<
    Map<Field, Seq<u8>>,
> {
    let key = key_step(v);
    let value = number_step(key.after);
    let field = field_named(key.result->Ok_0);
    if key.result is Err {
        failed(key)
    } else if value.result is Err {
        failed(value)
    } else if field is None || slots.dom().contains(field->Some_0) {
        Step {
            result: Err(DecodeError::SchemaViolation { position: (v.consumed + 1) as u64 }),
            after: value.after,
        }
    } else {
        Step { result: Ok(slots.insert(field->Some_0, value.result->Ok_0)), after: value.after }
    }
}

/// What reading the fields from the `n`-th on makes of a source that stands
/// for `v`: each of the first three is followed by a comma, the fourth by a
/// closing brace, and the record is what the four fields hold.
pub open spec fn fields_step(v: SourceView, slots: Map<Field, Seq<u8>>, n: nat) -> Step<DistView>
    decreases 3 - n,
{
    let field = field_step(v, slots);
    let close = literal_step(field.after, seq![if n >= 3 { CLOSE_BRACE } else { COMMA }]);
    if field.result is Err {
        failed(field)
    } else if close.result is Err {
        failed(close)
    } else if n >= 3 {
        Step { result: Ok(assembled(field.result->Ok_0)), after: close.after }
    } else {
        fields_step(close.after, field.result->Ok_0, n + 1)
    }
}

/// What [`maybe_consume_dist`] makes of a source that stands for `v`.
///
/// At a closing bracket the sequence of records ends, and nothing is
/// consumed. Otherwise a comma may come, then an opening brace must, then
/// the four fields.
pub open spec fn record_step(v: SourceView) -> Step<Option<DistView>> {
    let next = peeked(v);
    let at = if next == Ok::<u8, DecodeError>(COMMA) { v.advance(1) } else { v };
    let open = literal_step(at, seq![OPEN_BRACE]);
    let fields = fields_step(open.after, Map::empty(), 0);
    if next is Err {
        Step { result: Err(next->Err_0), after: v }
    } else if next == Ok::<u8, DecodeError>(CLOSE_BRACKET) {
        Step { result: Ok(None), after: v }
    } else if open.result is Err {
        failed(open)
    } else if fields.result is Err {
        failed(fields)
    } else {
        Step { result: Ok(Some(fields.result->Ok_0)), after: fields.after }
    }
}

/// What a pull stands for: the same failure or end, or the view of the
/// record that it yielded.
pub open spec fn pulled(outcome: Result<Option<Dist>, DecodeError>) -> Result<
    Option<DistView>,
    DecodeError,
> {
    match outcome {
        Ok(Some(dist)) => Ok(Some(dist@)),
        Ok(None) => Ok(None),
        Err(e) => Err(e),
    }
}

/// Reading a field only consumes.
pub proof fn lemma_field_step_follows(v: SourceView, slots: Map<Field, Seq<u8>>)
    ensures
        field_step(v, slots).after.follows(v),
{
    let key = key_step(v);
    lemma_key_step_follows(v);
    lemma_number_step_follows(key.after);
    lemma_follows_chain(v, key.after, number_step(key.after).after);
}

/// Reading the fields of a record only consumes.
pub proof fn lemma_fields_step_follows(v: SourceView, slots: Map<Field, Seq<u8>>, n: nat)
    ensures
        fields_step(v, slots, n).after.follows(v),
    decreases 3 - n,
{
    let field = field_step(v, slots);
    let close = literal_step(field.after, seq![if n >= 3 { CLOSE_BRACE } else { COMMA }]);
    lemma_field_step_follows(v, slots);
    lemma_follows_chain(v, field.after, close.after);
    if field.result is Ok && close.result is Ok && n < 3 {
        let rest = fields_step(close.after, field.result->Ok_0, n + 1);
        lemma_fields_step_follows(close.after, field.result->Ok_0, n + 1);
        lemma_follows_chain(v, close.after, rest.after);
    }
}

/// Reading a record only consumes, and a record takes at least one byte.
pub proof fn lemma_record_step_follows(v: SourceView)
    ensures
        record_step(v).after.follows(v),
        record_step(v).result matches Ok(Some(_)) ==> record_step(v).after.consumed > v.consumed,
{
    let next = peeked(v);
    let at = if next == Ok::<u8, DecodeError>(COMMA) { v.advance(1) } else { v };
    let open = literal_step(at, seq![OPEN_BRACE]);
    let fields = fields_step(open.after, Map::empty(), 0);
    lemma_follows_self(v);
    if next is Ok {
        lemma_follows_chain(v, at, open.after);
        lemma_fields_step_follows(open.after, Map::empty(), 0);
        lemma_follows_chain(v, open.after, fields.after);
    }
}

/// Reads one field into `assembly`.
fn consume_field(r: &mut ByteSource, assembly: &mut Assembly) -> (outcome: Result<
    (),
    DecodeError,
>)
    ensures
        final(r)@ == field_step(old(r)@, old(assembly)@).after,
        match outcome {
            Ok(()) => {
                &&& field_step(old(r)@, old(assembly)@).result == Ok::<
                    Map<Field, Seq<u8>>,
                    DecodeError,
                >(final(assembly)@)
                &&& filled(final(assembly)@) == filled(old(assembly)@) + 1
            },
            Err(e) => field_step(old(r)@, old(assembly)@).result == Err::<
                Map<Field, Seq<u8>>,
                DecodeError,
            >(e),
        },
{
    let key = match consume_key(r) {
        Err(e) => { return Err(e); },
        Ok(key) => key,
    };
    let name_at = r.position() - 4;
    let value = match consume_float(r) {
        Err(e) => { return Err(e); },
        Ok(value) => value,
    };
    match field_of_key(key) {
        None => Err(DecodeError::SchemaViolation { position: name_at }),
        Some(field) => {
            if assembly.set(field, value) {
                Ok(())
            } else {
                Err(DecodeError::SchemaViolation { position: name_at })
            }
        },
    }
}

/// Reads the next record, if one comes before the closing bracket.
pub fn maybe_consume_dist(r: &mut ByteSource) -> (outcome: Result<Option<Dist>, DecodeError>)
    ensures
        pulled(outcome) == record_step(old(r)@).result,
        final(r)@ == record_step(old(r)@).after,
{
    let next = match r.peek() {
        Err(e) => { return Err(e); },
        Ok(next) => next,
    };
    if next == CLOSE_BRACKET {
        return Ok(None);
    }
    if next == COMMA {
        r.skip(1);
    }
    let open = [OPEN_BRACE];
    let comma = [COMMA];
    let close = [CLOSE_BRACE];
    assert(open@ =~= seq![OPEN_BRACE]);
    assert(close@ =~= seq![CLOSE_BRACE]);
    match consume(r, open.as_slice()) {
        Err(e) => { return Err(e); },
        Ok(()) => {},
    }
    let ghost whole = record_step(old(r)@);
    let ghost rest = fields_step(r@, Map::empty(), 0);
    let mut assembly = Assembly::new();
    let mut n: usize = 0;
    while n < 3
        invariant
            n <= 3,
            comma@ == seq![COMMA],
            filled(assembly@) == n,
            rest == fields_step(r@, assembly@, n as nat),
            whole.after == rest.after,
            rest.result is Err ==> whole.result == Err::<Option<DistView>, DecodeError>(
                rest.result->Err_0,
            ),
            rest.result is Ok ==> whole.result == Ok::<Option<DistView>, DecodeError>(
                Some(rest.result->Ok_0),
            ),
            whole == record_step(old(r)@),
        decreases 3 - n,
    {
        match consume_field(r, &mut assembly) {
            Err(e) => { return Err(e); },
            Ok(()) => {},
        }
        match consume(r, comma.as_slice()) {
            Err(e) => { return Err(e); },
            Ok(()) => {},
        }
        n = n + 1;
    }
    match consume_field(r, &mut assembly) {
        Err(e) => { return Err(e); },
        Ok(()) => {},
    }
    match consume(r, close.as_slice()) {
        Err(e) => { return Err(e); },
        Ok(()) => {},
    }
    Ok(assembly.finish())
}

} // verus!
