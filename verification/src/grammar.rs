//! The format of a document, stated as text, and what the decoder makes of
//! text in that format.
//!
//! A record is written as a group: `{`, four entries with a comma between
//! them, `}`. An entry is a quoted two-byte key, a colon and a numeral. The
//! four keys of a group are the four field names, in any order. A document
//! is the prelude, the groups with a comma between them, and `]}`.

use vstd::prelude::*;
use crate::ascii::{
    CLOSE_BRACE, CLOSE_BRACKET, COLON, COMMA, DIGIT_ONE, DIGIT_ZERO, LETTER_X, LETTER_Y, OPEN_BRACE,
    QUOTE,
};
use crate::error::DecodeError;
use crate::numeral::{is_numeral, MAX_NUMERAL_LEN};
use crate::record::{
    assembled, field_name, field_named, field_step, fields_step, record_step, DistView, Field,
};
use crate::source::{lemma_advance_twice, peeked, SourceView, Step};
use crate::stream::{document_records, prelude, remaining, StreamView};
use crate::token::{
    is_terminator, key_step, lemma_byte_refused, lemma_key_accepted, lemma_key_inverted,
    lemma_key_refused, lemma_literal_accepted, lemma_literal_inverted, lemma_number_accepted,
    lemma_number_inverted, literal_step, number_step,
};

verus! {

/// A field as a document writes it.
pub struct Entry {
    /// The bytes between the quotes.
    pub key: Seq<u8>,
    /// The bytes between the colon and the comma or brace that ends the entry.
    pub value: Seq<u8>,
}

impl Entry {
    /// The entry as written: the quoted key, a colon, the value.
    pub open spec fn text(self) -> Seq<u8> {
        seq![QUOTE] + self.key + seq![QUOTE, COLON] + self.value
    }

    /// The key has two bytes and the value is a numeral that is short enough
    /// to be decoded.
    pub open spec fn legible(self) -> bool {
        &&& self.key.len() == 2
        &&& is_numeral(self.value)
        &&& self.value.len() <= MAX_NUMERAL_LEN
    }
}

/// The entries of a group from the `n`-th on as written, with a comma
/// between them and the closing brace of the group behind them.
pub open spec fn entries_text(entries: Seq<Entry>, n: int) -> Seq<u8>
    decreases entries.len() - n,
{
    if n < 0 || n >= entries.len() {
        seq![CLOSE_BRACE]
    } else if n == entries.len() - 1 {
        entries[n].text() + seq![CLOSE_BRACE]
    } else {
        entries[n].text() + seq![COMMA] + entries_text(entries, n + 1)
    }
}

/// A group as written: its entries between braces.
pub open spec fn group_text(entries: Seq<Entry>) -> Seq<u8> {
    seq![OPEN_BRACE] + entries_text(entries, 0)
}

/// The keys of the first `n` entries are field names, no two of them the same.
pub open spec fn distinct_fields(entries: Seq<Entry>, n: int) -> bool {
    &&& forall|i: int| 0 <= i < n ==> field_named(#[trigger] entries[i].key) is Some
    &&& forall|i: int, j: int|
        0 <= i < j < n ==> #[trigger] entries[i].key != #[trigger] entries[j].key
}

/// The entries write a record: there are four of them, all legible, and
/// their keys are the four field names, each once.
pub open spec fn well_formed(entries: Seq<Entry>) -> bool {
    &&& entries.len() == 4
    &&& forall|i: int| 0 <= i < 4 ==> (#[trigger] entries[i]).legible()
    &&& distinct_fields(entries, 4)
}

/// Index of an entry whose key is the name of `field`.
pub open spec fn entry_of(entries: Seq<Entry>, field: Field) -> int {
    choose|i: int| 0 <= i < entries.len() && (#[trigger] entries[i]).key == field_name(field)
}

/// The record that the entries write: each field holds the value that is
/// written under its name.
pub open spec fn record_of(entries: Seq<Entry>) -> DistView {
    DistView {
        x0: entries[entry_of(entries, Field::X0)].value,
        x1: entries[entry_of(entries, Field::X1)].value,
        y0: entries[entry_of(entries, Field::Y0)].value,
        y1: entries[entry_of(entries, Field::Y1)].value,
    }
}

/// The comma that stands before every group but the first.
pub open spec fn lead(comma: bool) -> Seq<u8> {
    if comma {
        seq![COMMA]
    } else {
        Seq::empty()
    }
}

/// `slots` with the entries from the `n`-th on filled in, in their order.
pub open spec fn fill(slots: Map<Field, Seq<u8>>, entries: Seq<Entry>, n: int) -> Map<
    Field,
    Seq<u8>,
>
    decreases entries.len() - n,
{
    if n < 0 || n >= entries.len() {
        slots
    } else {
        fill(slots.insert(field_named(entries[n].key)->Some_0, entries[n].value), entries, n + 1)
    }
}

/// Each field has one name, and a key names at most one field.
pub proof fn lemma_field_names(key: Seq<u8>)
    ensures
        forall|field: Field| field_named(#[trigger] field_name(field)) == Some(field),
        field_named(key) matches Some(field) ==> key == field_name(field),
{
}

/// Filling leaves alone every field that none of the entries filled in names.
proof fn lemma_fill_keeps(slots: Map<Field, Seq<u8>>, entries: Seq<Entry>, n: int, field: Field)
    requires
        0 <= n <= entries.len(),
        forall|j: int|
            n <= j < entries.len() ==> field_named((#[trigger] entries[j]).key) is Some
                && entries[j].key != field_name(field),
    ensures
        fill(slots, entries, n).dom().contains(field) == slots.dom().contains(field),
        slots.dom().contains(field) ==> fill(slots, entries, n)[field] == slots[field],
    decreases entries.len() - n,
{
    if n < entries.len() {
        lemma_fill_keeps(
            slots.insert(field_named(entries[n].key)->Some_0, entries[n].value),
            entries,
            n + 1,
            field,
        );
    }
}

/// Filling gives each field the value of the entry that names it.
proof fn lemma_fill_gets(slots: Map<Field, Seq<u8>>, entries: Seq<Entry>, n: int, at: int)
    requires
        0 <= n <= at < entries.len(),
        distinct_fields(entries, entries.len() as int),
    ensures
        fill(slots, entries, n).dom().contains(field_named(entries[at].key)->Some_0),
        fill(slots, entries, n)[field_named(entries[at].key)->Some_0] == entries[at].value,
    decreases entries.len() - n,
{
    let field = field_named(entries[at].key)->Some_0;
    let next = slots.insert(field_named(entries[n].key)->Some_0, entries[n].value);
    lemma_field_names(entries[at].key);
    if n == at {
        assert forall|j: int| n + 1 <= j < entries.len() implies field_named(
            (#[trigger] entries[j]).key,
        ) is Some && entries[j].key != field_name(field) by {}
        lemma_fill_keeps(next, entries, n + 1, field);
    } else {
        lemma_fill_gets(next, entries, n + 1, at);
    }
}

/// In a well-formed group every field is written.
pub proof fn lemma_every_field_written(entries: Seq<Entry>, field: Field)
    requires
        well_formed(entries),
    ensures
        0 <= entry_of(entries, field) < 4,
        entries[entry_of(entries, field)].key == field_name(field),
{
    // Four keys that name fields and differ from one another name four
    // fields, so one of them names `field`.
    lemma_field_names(entries[0].key);
    assert(entries[0].key != entries[1].key);
    assert(entries[0].key != entries[2].key);
    assert(entries[0].key != entries[3].key);
    assert(entries[1].key != entries[2].key);
    assert(entries[1].key != entries[3].key);
    assert(entries[2].key != entries[3].key);
}

/// The record of a well-formed group holds, for each entry, the entry's
/// value in the field that the entry's key names.
pub proof fn lemma_record_of_holds_entries(entries: Seq<Entry>, at: int)
    requires
        well_formed(entries),
        0 <= at < 4,
    ensures
        field_named(entries[at].key) is Some,
        record_of(entries).get(field_named(entries[at].key)->Some_0) == entries[at].value,
{
    let field = field_named(entries[at].key)->Some_0;
    let found = entry_of(entries, field);
    lemma_field_names(entries[at].key);
    if found < at {
        assert(entries[found].key != entries[at].key);
    } else if at < found {
        assert(entries[at].key != entries[found].key);
    }
}

/// Filling an empty record with a well-formed group gives the group's record.
proof fn lemma_fill_is_record(entries: Seq<Entry>)
    requires
        well_formed(entries),
    ensures
        assembled(fill(Map::empty(), entries, 0)) == record_of(entries),
{
    lemma_every_field_written(entries, Field::X0);
    lemma_every_field_written(entries, Field::X1);
    lemma_every_field_written(entries, Field::Y0);
    lemma_every_field_written(entries, Field::Y1);
    lemma_field_names(Seq::empty());
    lemma_fill_gets(Map::empty(), entries, 0, entry_of(entries, Field::X0));
    lemma_fill_gets(Map::empty(), entries, 0, entry_of(entries, Field::X1));
    lemma_fill_gets(Map::empty(), entries, 0, entry_of(entries, Field::Y0));
    lemma_fill_gets(Map::empty(), entries, 0, entry_of(entries, Field::Y1));
}

/// A source that begins with a legible entry and a terminator yields the
/// key and the value of the entry, and is left at the terminator.
proof fn lemma_entry_read(v: SourceView, entry: Entry, rest: Seq<u8>)
    requires
        entry.legible(),
        rest.len() > 0,
        is_terminator(rest[0]),
        v.unread == entry.text() + rest,
    ensures
        key_step(v) == (Step { result: Ok(entry.key), after: v.advance(5) }),
        number_step(v.advance(5)) == (Step {
            result: Ok(entry.value),
            after: v.advance(entry.text().len()),
        }),
        v.advance(entry.text().len()).unread == rest,
{
    assert(v.unread =~= seq![QUOTE] + entry.key + seq![QUOTE, COLON] + (entry.value + rest));
    lemma_key_accepted(v, entry.key, entry.value + rest);
    lemma_number_accepted(v.advance(5), entry.value, rest);
    lemma_advance_twice(v, 5, entry.value.len());
}

/// A legible entry whose key names a field that is still empty fills it.
proof fn lemma_field_accepted(
    v: SourceView,
    slots: Map<Field, Seq<u8>>,
    entry: Entry,
    rest: Seq<u8>,
)
    requires
        entry.legible(),
        field_named(entry.key) is Some,
        !slots.dom().contains(field_named(entry.key)->Some_0),
        rest.len() > 0,
        is_terminator(rest[0]),
        v.unread == entry.text() + rest,
    ensures
        field_step(v, slots) == (Step {
            result: Ok(slots.insert(field_named(entry.key)->Some_0, entry.value)),
            after: v.advance(entry.text().len()),
        }),
        v.advance(entry.text().len()).unread == rest,
{
    lemma_entry_read(v, entry, rest);
}

/// A legible entry whose key names no field, or a field that is filled,
/// is a schema violation at the key.
proof fn lemma_field_refused(
    v: SourceView,
    slots: Map<Field, Seq<u8>>,
    entry: Entry,
    rest: Seq<u8>,
)
    requires
        entry.legible(),
        field_named(entry.key) is None || slots.dom().contains(field_named(entry.key)->Some_0),
        rest.len() > 0,
        is_terminator(rest[0]),
        v.unread == entry.text() + rest,
    ensures
        field_step(v, slots).result == Err::<Map<Field, Seq<u8>>, DecodeError>(
            DecodeError::SchemaViolation { position: (v.consumed + 1) as u64 },
        ),
{
    lemma_entry_read(v, entry, rest);
}

/// The entries of a well-formed group from the `n`-th on fill the fields
/// that they name, and the closing brace completes the record.
#[verifier::rlimit(40)]
proof fn lemma_fields_accepted(
    v: SourceView,
    slots: Map<Field, Seq<u8>>,
    entries: Seq<Entry>,
    n: int,
    rest: Seq<u8>,
)
    requires
        well_formed(entries),
        0 <= n < 4,
        forall|j: int|
            #![trigger entries[j]]
            n <= j < 4 ==> !slots.dom().contains(field_named(entries[j].key)->Some_0),
        v.unread == entries_text(entries, n) + rest,
    ensures
        fields_step(v, slots, n as nat) == (Step {
            result: Ok(assembled(fill(slots, entries, n))),
            after: v.advance(entries_text(entries, n).len()),
        }),
        v.advance(entries_text(entries, n).len()).unread == rest,
    decreases 4 - n,
{
    let entry = entries[n];
    let filled = slots.insert(field_named(entry.key)->Some_0, entry.value);
    let next = v.advance(entry.text().len() + 1);
    lemma_fields_step_written(v, slots, entries, n, rest);
    if n < 3 {
        assert forall|j: int| #![trigger entries[j]] n + 1 <= j < 4 implies !filled.dom().contains(
            field_named(entries[j].key)->Some_0,
        ) by {
            lemma_field_names(entries[j].key);
            assert(entries[n].key != entries[j].key);
        }
        lemma_fields_accepted(next, filled, entries, n + 1, rest);
        lemma_advance_twice(v, entry.text().len() + 1, entries_text(entries, n + 1).len());
    }
}

/// Three texts in a row are the same text however they are grouped.
proof fn lemma_assoc(a: Seq<u8>, b: Seq<u8>, c: Seq<u8>)
    ensures
        a + b + c == a + (b + c),
{
}

/// Four texts in a row are the same text however they are grouped.
proof fn lemma_regroup(a: Seq<u8>, b: Seq<u8>, c: Seq<u8>, d: Seq<u8>)
    ensures
        a + (b + c) + d == a + b + (c + d),
{
}

/// Behind the comma, if one stands there, and the opening brace, reading a
/// record is reading its fields.
proof fn lemma_record_opens(v: SourceView, comma: bool, tail: Seq<u8>)
    requires
        v.unread == lead(comma) + seq![OPEN_BRACE] + tail,
    ensures
        ({
            let inside = v.advance(lead(comma).len() + 1);
            let fields = fields_step(inside, Map::empty(), 0);
            &&& inside.unread == tail
            &&& record_step(v).after == fields.after
            &&& record_step(v).result == match fields.result {
                Ok(dist) => Ok::<Option<DistView>, DecodeError>(Some(dist)),
                Err(e) => Err(e),
            }
        }),
{
    let at = if comma { v.advance(1) } else { v };
    assert(at.unread =~= seq![OPEN_BRACE] + tail);
    lemma_literal_accepted(at, seq![OPEN_BRACE], tail);
}

/// A well-formed group, in whatever order it writes the four fields,
/// decodes to the record that it writes, and nothing but the group is
/// consumed: neither more nor less, and the comma before it, if one stands
/// there.
#[verifier::rlimit(40)]
pub proof fn theorem_record_round_trip(
    v: SourceView,
    entries: Seq<Entry>,
    comma: bool,
    rest: Seq<u8>,
)
    requires
        well_formed(entries),
        v.unread == lead(comma) + group_text(entries) + rest,
    ensures
        record_step(v) == (Step {
            result: Ok(Some(record_of(entries))),
            after: v.advance((lead(comma) + group_text(entries)).len()),
        }),
        v.advance((lead(comma) + group_text(entries)).len()).unread == rest,
{
    let tail = entries_text(entries, 0) + rest;
    let inside = v.advance(lead(comma).len() + 1);
    lemma_regroup(lead(comma), seq![OPEN_BRACE], entries_text(entries, 0), rest);
    lemma_record_opens(v, comma, tail);
    lemma_fields_accepted(inside, Map::empty(), entries, 0, rest);
    lemma_fill_is_record(entries);
    lemma_advance_twice(v, lead(comma).len() + 1, entries_text(entries, 0).len());
}

/// The entries from the `n`-th on can follow the fields in `slots`: their
/// keys name fields that are neither in `slots` nor named twice.
spec fn fits(slots: Map<Field, Seq<u8>>, entries: Seq<Entry>, n: int) -> bool {
    &&& forall|j: int|
        #![trigger entries[j]]
        n <= j < entries.len() ==> field_named(entries[j].key) is Some && !slots.dom().contains(
            field_named(entries[j].key)->Some_0,
        )
    &&& forall|i: int, j: int|
        n <= i < j < entries.len() ==> #[trigger] entries[i].key != #[trigger] entries[j].key
}

/// Entries that can follow the fields in `slots` and the field of the
/// entry before them, can follow `slots` together with that entry.
proof fn lemma_fits_extends(slots: Map<Field, Seq<u8>>, entries: Seq<Entry>, n: int)
    requires
        0 <= n < entries.len(),
        field_named(entries[n].key) is Some,
        !slots.dom().contains(field_named(entries[n].key)->Some_0),
        fits(
            slots.insert(field_named(entries[n].key)->Some_0, entries[n].value),
            entries,
            n + 1,
        ),
    ensures
        fits(slots, entries, n),
{
    assert forall|i: int, j: int| n <= i < j < entries.len() implies #[trigger] entries[i].key
        != #[trigger] entries[j].key by {}
    assert forall|j: int| #![trigger entries[j]] n <= j < entries.len() implies field_named(
        entries[j].key,
    ) is Some && !slots.dom().contains(field_named(entries[j].key)->Some_0) by {}
}

/// What reading the fields from the `n`-th on comes to where a legible
/// entry is written there, with a comma or a closing brace behind it: a
/// schema violation if its key does not name an empty field, or if the
/// group goes on or ends behind it where it should not; else the record, or
/// the reading of the fields behind it.
#[verifier::rlimit(40)]
proof fn lemma_fields_step_entry(
    v: SourceView,
    slots: Map<Field, Seq<u8>>,
    n: int,
    entry: Entry,
    last: bool,
    tail: Seq<u8>,
)
    requires
        0 <= n < 4,
        entry.legible(),
        v.unread == entry.text() + seq![if last { CLOSE_BRACE } else { COMMA }] + tail,
    ensures
        ({
            let fresh = field_named(entry.key) is Some && !slots.dom().contains(
                field_named(entry.key)->Some_0,
            );
            let filled = slots.insert(field_named(entry.key)->Some_0, entry.value);
            let next = v.advance(entry.text().len() + 1);
            let step = fields_step(v, slots, n as nat);
            &&& !fresh ==> step.result is Err && step.result->Err_0 is SchemaViolation
            &&& fresh && last != (n >= 3) ==> step.result is Err
                && step.result->Err_0 is SchemaViolation
            &&& fresh && last && n >= 3 ==> step == (Step {
                result: Ok(assembled(filled)),
                after: next,
            })
            &&& fresh && !last && n < 3 ==> step == fields_step(next, filled, (n + 1) as nat)
            &&& next.unread == tail
        }),
{
    let written = if last { CLOSE_BRACE } else { COMMA };
    let wanted = if n >= 3 { CLOSE_BRACE } else { COMMA };
    assert(v.unread =~= entry.text() + (seq![written] + tail));
    let mid = v.advance(entry.text().len());
    assert((entry.text() + (seq![written] + tail)).skip(entry.text().len() as int + 1) =~= tail);
    if field_named(entry.key) is None || slots.dom().contains(field_named(entry.key)->Some_0) {
        lemma_field_refused(v, slots, entry, seq![written] + tail);
    } else {
        lemma_field_accepted(v, slots, entry, seq![written] + tail);
        if written != wanted {
            lemma_byte_refused(mid, wanted);
        } else {
            lemma_literal_accepted(mid, seq![written], tail);
        }
    }
}

/// [`lemma_fields_step_entry`] for the `n`-th entry of a group as written.
proof fn lemma_fields_step_written(
    v: SourceView,
    slots: Map<Field, Seq<u8>>,
    entries: Seq<Entry>,
    n: int,
    rest: Seq<u8>,
)
    requires
        0 <= n < 4,
        n < entries.len(),
        entries[n].legible(),
        v.unread == entries_text(entries, n) + rest,
    ensures
        ({
            let entry = entries[n];
            let fresh = field_named(entry.key) is Some && !slots.dom().contains(
                field_named(entry.key)->Some_0,
            );
            let filled = slots.insert(field_named(entry.key)->Some_0, entry.value);
            let last = n == entries.len() - 1;
            let next = v.advance(entry.text().len() + 1);
            let step = fields_step(v, slots, n as nat);
            &&& !fresh ==> step.result is Err && step.result->Err_0 is SchemaViolation
            &&& fresh && last != (n >= 3) ==> step.result is Err
                && step.result->Err_0 is SchemaViolation
            &&& fresh && last && n >= 3 ==> step == (Step {
                result: Ok(assembled(filled)),
                after: next,
            }) && next.unread == rest
            &&& fresh && !last && n < 3 ==> step == fields_step(next, filled, (n + 1) as nat)
                && next.unread == entries_text(entries, n + 1) + rest
        }),
{
    let last = n == entries.len() - 1;
    let tail = if last { rest } else { entries_text(entries, n + 1) + rest };
    if !last {
        lemma_assoc(entries[n].text() + seq![COMMA], entries_text(entries, n + 1), rest);
    }
    lemma_fields_step_entry(v, slots, n, entries[n], last, tail);
}

/// Reading the fields from the `n`-th on ends in a schema violation.
#[verifier::opaque]
spec fn refused(v: SourceView, slots: Map<Field, Seq<u8>>, n: int) -> bool {
    &&& fields_step(v, slots, n as nat).result is Err
    &&& fields_step(v, slots, n as nat).result->Err_0 is SchemaViolation
}

/// A group without entries is refused.
proof fn lemma_empty_group_refused(
    v: SourceView,
    slots: Map<Field, Seq<u8>>,
    n: int,
    rest: Seq<u8>,
)
    requires
        0 <= n < 4,
        v.unread == seq![CLOSE_BRACE] + rest,
    ensures
        refused(v, slots, n),
{
    reveal(refused);
    lemma_byte_refused(v, QUOTE);
}

/// Where a legible entry is written, the fields are refused if its key does
/// not name an empty field or the group goes on or ends behind it where it
/// should not; and if neither, they are refused if those behind it are.
proof fn lemma_refused_step(
    v: SourceView,
    slots: Map<Field, Seq<u8>>,
    entries: Seq<Entry>,
    n: int,
    rest: Seq<u8>,
)
    requires
        0 <= n < 4,
        n < entries.len(),
        entries[n].legible(),
        v.unread == entries_text(entries, n) + rest,
    ensures
        ({
            let entry = entries[n];
            let fresh = field_named(entry.key) is Some && !slots.dom().contains(
                field_named(entry.key)->Some_0,
            );
            let filled = slots.insert(field_named(entry.key)->Some_0, entry.value);
            let last = n == entries.len() - 1;
            let next = v.advance(entry.text().len() + 1);
            &&& !fresh ==> refused(v, slots, n)
            &&& fresh && last != (n >= 3) ==> refused(v, slots, n)
            &&& fresh && !last && n < 3 ==> refused(v, slots, n) == refused(next, filled, n + 1)
                && next.unread == entries_text(entries, n + 1) + rest
        }),
{
    reveal(refused);
    lemma_fields_step_written(v, slots, entries, n, rest);
}

/// Legible entries that are not what the group still needs end in a schema
/// violation.
proof fn lemma_fields_refused(
    v: SourceView,
    slots: Map<Field, Seq<u8>>,
    entries: Seq<Entry>,
    n: int,
    rest: Seq<u8>,
)
    requires
        forall|i: int| 0 <= i < entries.len() ==> (#[trigger] entries[i]).legible(),
        0 <= n < 4,
        n < entries.len() || entries.len() == 0,
        !(entries.len() == 4 && fits(slots, entries, n)),
        v.unread == entries_text(entries, n) + rest,
    ensures
        refused(v, slots, n),
    decreases 4 - n,
{
    if entries.len() == 0 {
        lemma_empty_group_refused(v, slots, n, rest);
    } else {
        let entry = entries[n];
        let fresh = field_named(entry.key) is Some && !slots.dom().contains(
            field_named(entry.key)->Some_0,
        );
        let filled = slots.insert(field_named(entry.key)->Some_0, entry.value);
        let last = n == entries.len() - 1;
        let next = v.advance(entry.text().len() + 1);
        lemma_refused_step(v, slots, entries, n, rest);
        if fresh && !last && n < 3 {
            lemma_fields_refused(next, filled, entries, n + 1, rest);
        }
    }
}

/// A group of legible entries that is not well-formed is rejected as a
/// schema violation, and no record comes of it: a group that lacks a field,
/// has one too many, writes a field twice, or writes a key that names none.
pub proof fn theorem_ill_formed_group_rejected(
    v: SourceView,
    entries: Seq<Entry>,
    comma: bool,
    rest: Seq<u8>,
)
    requires
        forall|i: int| 0 <= i < entries.len() ==> (#[trigger] entries[i]).legible(),
        !well_formed(entries),
        v.unread == lead(comma) + group_text(entries) + rest,
    ensures
        record_step(v).result matches Err(DecodeError::SchemaViolation { .. }),
{
    let tail = entries_text(entries, 0) + rest;
    let inside = v.advance(lead(comma).len() + 1);
    lemma_regroup(lead(comma), seq![OPEN_BRACE], entries_text(entries, 0), rest);
    lemma_record_opens(v, comma, tail);
    lemma_fields_refused(inside, Map::empty(), entries, 0, rest);
    reveal(refused);
}

/// Only a legible entry whose key names a field that was empty fills a field.
proof fn lemma_field_inverted(v: SourceView, slots: Map<Field, Seq<u8>>) -> (entry: Entry)
    requires
        field_step(v, slots).result is Ok,
    ensures
        entry.legible(),
        field_named(entry.key) is Some,
        !slots.dom().contains(field_named(entry.key)->Some_0),
        field_step(v, slots).result->Ok_0 == slots.insert(
            field_named(entry.key)->Some_0,
            entry.value,
        ),
        field_step(v, slots).after == v.advance(entry.text().len()),
        field_step(v, slots).after.unread.len() > 0,
        is_terminator(field_step(v, slots).after.unread[0]),
        v.unread == entry.text() + field_step(v, slots).after.unread,
{
    let key = key_step(v);
    let value = number_step(key.after);
    lemma_key_inverted(v);
    lemma_number_inverted(key.after);
    let entry = Entry { key: key.result->Ok_0, value: value.result->Ok_0 };
    lemma_advance_twice(v, 5, entry.value.len());
    entry
}

/// What reading the fields from the `n`-th on comes to, once it is known to
/// succeed: the entry that was read, which fills a field, and the comma or
/// brace behind it.
proof fn lemma_fields_step_inverted(v: SourceView, slots: Map<Field, Seq<u8>>, n: int) -> (entry:
    Entry)
    requires
        fields_step(v, slots, n as nat).result is Ok,
        0 <= n < 4,
    ensures
        entry.legible(),
        field_named(entry.key) is Some,
        !slots.dom().contains(field_named(entry.key)->Some_0),
        entry.text().len() + 1 <= v.unread.len(),
        v.unread == entry.text() + seq![if n >= 3 { CLOSE_BRACE } else { COMMA }] + v.advance(
            entry.text().len() + 1,
        ).unread,
        n >= 3 ==> fields_step(v, slots, n as nat) == (Step {
            result: Ok(
                assembled(slots.insert(field_named(entry.key)->Some_0, entry.value)),
            ),
            after: v.advance(entry.text().len() + 1),
        }),
        n < 3 ==> fields_step(v, slots, n as nat) == fields_step(
            v.advance(entry.text().len() + 1),
            slots.insert(field_named(entry.key)->Some_0, entry.value),
            (n + 1) as nat,
        ),
{
    let entry = lemma_field_inverted(v, slots);
    lemma_advance_twice(v, entry.text().len(), 1);
    entry
}

/// Only entries that are what a group still needs complete a record.
proof fn lemma_fields_inverted(
    v: SourceView,
    slots: Map<Field, Seq<u8>>,
    n: int,
    done: Seq<Entry>,
) -> (entries: Seq<Entry>)
    requires
        fields_step(v, slots, n as nat).result is Ok,
        0 <= n < 4,
        done.len() == n,
    ensures
        entries.len() == 4,
        fits(slots, entries, n),
        entries.take(n) == done,
        forall|j: int| n <= j < 4 ==> (#[trigger] entries[j]).legible(),
        fields_step(v, slots, n as nat).result->Ok_0 == assembled(fill(slots, entries, n)),
        fields_step(v, slots, n as nat).after == v.advance(entries_text(entries, n).len()),
        v.unread == entries_text(entries, n) + fields_step(v, slots, n as nat).after.unread,
    decreases 4 - n,
{
    let entry = lemma_fields_step_inverted(v, slots, n);
    let filled = slots.insert(field_named(entry.key)->Some_0, entry.value);
    let next = v.advance(entry.text().len() + 1);
    if n >= 3 {
        let entries = done.push(entry);
        assert(fill(filled, entries, n + 1) == filled);
        entries
    } else {
        let entries = lemma_fields_inverted(next, filled, n + 1, done.push(entry));
        let after = fields_step(next, filled, (n + 1) as nat).after;
        assert(entries[n] == entry) by {
            assert(entries.take(n + 1)[n] == done.push(entry)[n]);
        }
        assert(entries.take(n) =~= done);
        assert(entries_text(entries, n) == entry.text() + seq![COMMA] + entries_text(
            entries,
            n + 1,
        ));
        assert(v.unread == entries_text(entries, n) + after.unread) by {
            assert(v.unread =~= entry.text() + seq![COMMA] + entries_text(entries, n + 1)
                + after.unread);
        }
        lemma_advance_twice(v, entry.text().len() + 1, entries_text(entries, n + 1).len());
        lemma_fits_extends(slots, entries, n);
        entries
    }
}

/// A record comes only of a well-formed group: whenever the decoder yields
/// a record, what it consumed is a well-formed group as written, after a
/// comma or not, and the record is the one that the group writes. The
/// result is that group, and whether a comma stood before it.
pub proof fn theorem_record_was_written(v: SourceView) -> (written: (Seq<Entry>, bool))
    requires
        record_step(v).result matches Ok(Some(_)),
    ensures
        well_formed(written.0),
        record_step(v).result == Ok::<Option<DistView>, DecodeError>(Some(record_of(written.0))),
        record_step(v).after == v.advance((lead(written.1) + group_text(written.0)).len()),
        v.unread == lead(written.1) + group_text(written.0) + record_step(v).after.unread,
{
    let comma = peeked(v) == Ok::<u8, DecodeError>(COMMA);
    let at = if comma { v.advance(1) } else { v };
    let open = literal_step(at, seq![OPEN_BRACE]);
    lemma_literal_inverted(at, seq![OPEN_BRACE]);
    let entries = lemma_fields_inverted(open.after, Map::empty(), 0, Seq::empty());
    lemma_fill_is_record(entries);
    lemma_advance_twice(at, 1, entries_text(entries, 0).len());
    if comma {
        lemma_advance_twice(v, 1, group_text(entries).len());
        assert(v.unread =~= seq![COMMA] + at.unread);
    }
    (entries, comma)
}

/// The groups of a document from the `i`-th on as written, with a comma
/// between them and the end of the document behind them.
pub open spec fn groups_text(groups: Seq<Seq<Entry>>, i: int) -> Seq<u8>
    decreases groups.len() - i,
{
    if i < 0 || i >= groups.len() {
        seq![CLOSE_BRACKET, CLOSE_BRACE]
    } else {
        lead(i > 0) + group_text(groups[i]) + groups_text(groups, i + 1)
    }
}

/// A document as written: the prelude, the groups, the end.
pub open spec fn document_text(groups: Seq<Seq<Entry>>) -> Seq<u8> {
    prelude() + groups_text(groups, 0)
}

/// Every group of the document is well-formed.
pub open spec fn well_formed_groups(groups: Seq<Seq<Entry>>) -> bool {
    forall|k: int| 0 <= k < groups.len() ==> well_formed(#[trigger] groups[k])
}

/// The records that the groups write, in the order of the groups.
pub open spec fn records_of(groups: Seq<Seq<Entry>>) -> Seq<DistView> {
    groups.map_values(|entries: Seq<Entry>| record_of(entries))
}

/// [`well_formed_groups`], kept folded where what it says of each group is
/// not needed.
#[verifier::opaque]
spec fn all_well_formed(groups: Seq<Seq<Entry>>) -> bool {
    forall|k: int| 0 <= k < groups.len() ==> well_formed(#[trigger] groups[k])
}

/// The records from the `i`-th on are the `i`-th and those after it.
proof fn lemma_records_from(groups: Seq<Seq<Entry>>, i: int)
    requires
        0 <= i < groups.len(),
    ensures
        seq![record_of(groups[i])] + records_of(groups).skip(i + 1) == records_of(groups).skip(i),
{
    assert(seq![record_of(groups[i])] + records_of(groups).skip(i + 1) =~= records_of(
        groups,
    ).skip(i));
}

/// A stream that stands before the `i`-th group of a document of
/// well-formed groups yields the records of the groups from there on.
proof fn lemma_groups_accepted(source: SourceView, groups: Seq<Seq<Entry>>, i: int)
    requires
        all_well_formed(groups),
        0 <= i <= groups.len(),
        source.unread == groups_text(groups, i),
    ensures
        remaining(StreamView { source, failure: None }) == Ok::<Seq<DistView>, DecodeError>(
            records_of(groups).skip(i),
        ),
    decreases groups.len() - i,
{
    if i == groups.len() {
        assert(source.unread.len() > 0 && source.unread[0] == CLOSE_BRACKET);
        assert(records_of(groups).skip(i) =~= Seq::<DistView>::empty());
    } else {
        let tail = groups_text(groups, i + 1);
        let used = (lead(i > 0) + group_text(groups[i])).len();
        let after = source.advance(used);
        assert(record_step(source) == (Step {
            result: Ok(Some(record_of(groups[i]))),
            after,
        }) && after.unread == tail) by {
            assert(well_formed(groups[i])) by {
                reveal(all_well_formed);
            }
            theorem_record_round_trip(source, groups[i], i > 0, tail);
        }
        lemma_groups_accepted(after, groups, i + 1);
        lemma_records_from(groups, i);
    }
}

/// A document of well-formed groups decodes to the records that the groups
/// write: as many records as there are groups, in the order of the groups.
pub proof fn theorem_document_round_trip(groups: Seq<Seq<Entry>>)
    requires
        well_formed_groups(groups),
    ensures
        document_records(document_text(groups)) == Ok::<Seq<DistView>, DecodeError>(
            records_of(groups),
        ),
        records_of(groups).len() == groups.len(),
{
    let start = SourceView { consumed: 0, unread: document_text(groups) };
    lemma_literal_accepted(start, prelude(), groups_text(groups, 0));
    assert(all_well_formed(groups)) by {
        reveal(all_well_formed);
    }
    lemma_groups_accepted(start.advance(prelude().len()), groups, 0);
    assert(records_of(groups).skip(0) =~= records_of(groups));
}

/// A document of one well-formed group decodes to exactly one record, and
/// each field of that record holds, byte for byte, the numeral that the
/// group writes under the field's name.
pub proof fn theorem_single_record_document(entries: Seq<Entry>)
    requires
        well_formed(entries),
    ensures
        document_records(document_text(seq![entries])) == Ok::<Seq<DistView>, DecodeError>(
            seq![record_of(entries)],
        ),
        forall|at: int|
            0 <= at < 4 ==> record_of(entries).get(
                field_named((#[trigger] entries[at]).key)->Some_0,
            ) == entries[at].value,
{
    let groups = seq![entries];
    theorem_document_round_trip(groups);
    assert(records_of(groups) =~= seq![record_of(entries)]);
    assert forall|at: int| 0 <= at < 4 implies record_of(entries).get(
        field_named((#[trigger] entries[at]).key)->Some_0,
    ) == entries[at].value by {
        lemma_record_of_holds_entries(entries, at);
    }
}

/// Every entry of `a` is an entry of `b`.
pub open spec fn holds_entries_of(b: Seq<Entry>, a: Seq<Entry>) -> bool {
    forall|i: int|
        0 <= i < a.len() ==> exists|j: int|
            0 <= j < b.len() && #[trigger] b[j] == #[trigger] a[i]
}

/// Two well-formed groups that hold the same entries write the same field.
proof fn lemma_same_entries_same_field(a: Seq<Entry>, b: Seq<Entry>, field: Field)
    requires
        well_formed(a),
        well_formed(b),
        holds_entries_of(b, a),
    ensures
        record_of(a).get(field) == record_of(b).get(field),
{
    lemma_every_field_written(a, field);
    lemma_every_field_written(b, field);
    let ia = entry_of(a, field);
    let ib = entry_of(b, field);
    let j = choose|j: int| 0 <= j < 4 && #[trigger] b[j] == #[trigger] a[ia];
    // `b[j]` and `b[ib]` have the same key, so they are the same entry.
    if j < ib {
        assert(b[j].key != b[ib].key);
    } else if ib < j {
        assert(b[ib].key != b[j].key);
    }
}

/// The order in which a group writes its four fields does not matter: two
/// well-formed groups that hold the same entries, in whatever order each,
/// decode to the same record.
pub proof fn theorem_field_order_irrelevant(
    a: Seq<Entry>,
    b: Seq<Entry>,
    va: SourceView,
    vb: SourceView,
)
    requires
        well_formed(a),
        well_formed(b),
        holds_entries_of(b, a),
        va.unread == group_text(a),
        vb.unread == group_text(b),
    ensures
        record_of(a) == record_of(b),
        record_step(va).result == Ok::<Option<DistView>, DecodeError>(Some(record_of(a))),
        record_step(vb).result == record_step(va).result,
{
    lemma_same_entries_same_field(a, b, Field::X0);
    lemma_same_entries_same_field(a, b, Field::X1);
    lemma_same_entries_same_field(a, b, Field::Y0);
    lemma_same_entries_same_field(a, b, Field::Y1);
    theorem_record_round_trip(va, a, false, Seq::empty());
    theorem_record_round_trip(vb, b, false, Seq::empty());
}

/// The entries from the `n`-th on as written, each with a comma behind it.
pub open spec fn entries_with_commas(entries: Seq<Entry>, n: int) -> Seq<u8>
    decreases entries.len() - n,
{
    if n < 0 || n >= entries.len() {
        Seq::empty()
    } else {
        entries[n].text() + seq![COMMA] + entries_with_commas(entries, n + 1)
    }
}

/// Fewer than four entries that can follow `slots`, each with a comma
/// behind it, are read one by one, and the fields are refused if what
/// stands behind them is.
proof fn lemma_entries_then(
    v: SourceView,
    slots: Map<Field, Seq<u8>>,
    entries: Seq<Entry>,
    n: int,
    junk: Seq<u8>,
)
    requires
        entries.len() < 4,
        0 <= n <= entries.len(),
        forall|i: int| 0 <= i < entries.len() ==> (#[trigger] entries[i]).legible(),
        fits(slots, entries, n),
        v.unread == entries_with_commas(entries, n) + junk,
    ensures
        refused(v, slots, n) == refused(
            v.advance(entries_with_commas(entries, n).len()),
            fill(slots, entries, n),
            entries.len() as int,
        ),
        v.advance(entries_with_commas(entries, n).len()).unread == junk,
    decreases entries.len() - n,
{
    if n >= entries.len() {
        assert(v.unread.skip(0) =~= v.unread);
    } else {
        let entry = entries[n];
        let filled = slots.insert(field_named(entry.key)->Some_0, entry.value);
        let tail = entries_with_commas(entries, n + 1) + junk;
        let next = v.advance(entry.text().len() + 1);
        assert(refused(v, slots, n) == refused(next, filled, n + 1) && next.unread == tail) by {
            assert(v.unread =~= entry.text() + seq![COMMA] + tail);
            lemma_fields_step_entry(v, slots, n, entry, false, tail);
            reveal(refused);
        }
        assert(fits(filled, entries, n + 1));
        lemma_entries_then(next, filled, entries, n + 1, junk);
        lemma_advance_twice(
            v,
            entry.text().len() + 1,
            entries_with_commas(entries, n + 1).len(),
        );
    }
}

/// Where something other than a quoted key and its colon stands in the
/// place of an entry, the fields are refused.
proof fn lemma_unquoted_key_refused(v: SourceView, slots: Map<Field, Seq<u8>>, n: int)
    requires
        0 <= n < 4,
        (v.unread.len() >= 1 && v.unread[0] != QUOTE) || (v.unread.len() >= 5 && (v.unread[3]
            != QUOTE || v.unread[4] != COLON)),
    ensures
        refused(v, slots, n),
{
    reveal(refused);
    lemma_key_refused(v);
}

/// A group that does not open with a brace is rejected as a schema
/// violation at the byte that stands in the brace's place.
pub proof fn theorem_unopened_group_rejected(v: SourceView)
    requires
        v.unread.len() > 0,
        v.unread[0] != CLOSE_BRACKET,
        v.unread[0] != OPEN_BRACE,
        v.unread[0] == COMMA ==> v.unread.len() > 1 && v.unread[1] != OPEN_BRACE,
    ensures
        record_step(v).result == Err::<Option<DistView>, DecodeError>(
            DecodeError::SchemaViolation {
                position: (if v.unread[0] == COMMA {
                    v.consumed + 1
                } else {
                    v.consumed
                }) as u64,
            },
        ),
{
    let at = if v.unread[0] == COMMA { v.advance(1) } else { v };
    lemma_byte_refused(at, OPEN_BRACE);
}

/// Where a group has fewer than four entries so far, all good, and what
/// stands behind the last comma is not a quoted key with its colon, the
/// group is rejected as a schema violation.
pub proof fn theorem_unquoted_key_rejected(
    v: SourceView,
    entries: Seq<Entry>,
    comma: bool,
    junk: Seq<u8>,
)
    requires
        entries.len() < 4,
        forall|i: int| 0 <= i < entries.len() ==> (#[trigger] entries[i]).legible(),
        distinct_fields(entries, entries.len() as int),
        v.unread == lead(comma) + seq![OPEN_BRACE] + entries_with_commas(entries, 0) + junk,
        (junk.len() >= 1 && junk[0] != QUOTE) || (junk.len() >= 5 && (junk[3] != QUOTE || junk[4]
            != COLON)),
    ensures
        record_step(v).result is Err,
        record_step(v).result->Err_0 is SchemaViolation,
{
    let tail = entries_with_commas(entries, 0) + junk;
    let inside = v.advance(lead(comma).len() + 1);
    lemma_assoc(lead(comma) + seq![OPEN_BRACE], entries_with_commas(entries, 0), junk);
    lemma_record_opens(v, comma, tail);
    lemma_entries_then(inside, Map::empty(), entries, 0, junk);
    lemma_unquoted_key_refused(
        inside.advance(entries_with_commas(entries, 0).len()),
        fill(Map::empty(), entries, 0),
        entries.len() as int,
    );
    reveal(refused);
}

/// Where the fourth entry of a group, all four of them good, has a comma
/// behind it in place of the closing brace, the group is rejected as a
/// schema violation.
#[verifier::rlimit(40)]
pub proof fn theorem_unclosed_group_rejected(
    v: SourceView,
    entries: Seq<Entry>,
    comma: bool,
    rest: Seq<u8>,
)
    requires
        well_formed(entries),
        v.unread == lead(comma) + seq![OPEN_BRACE] + entries_with_commas(entries, 0) + rest,
    ensures
        record_step(v).result is Err,
        record_step(v).result->Err_0 is SchemaViolation,
{
    let first = entries.take(3);
    let fourth = entries[3];
    let tail = fourth.text() + seq![COMMA] + rest;
    let inside = v.advance(lead(comma).len() + 1);
    assert(entries_with_commas(entries, 0) == entries_with_commas(first, 0) + (fourth.text()
        + seq![COMMA])) by {
        lemma_commas_of_first(entries, 3, 0);
        assert(entries_with_commas(entries, 3) =~= fourth.text() + seq![COMMA]) by {
            assert(entries_with_commas(entries, 4) =~= Seq::<u8>::empty());
        }
    }
    assert(v.unread == lead(comma) + seq![OPEN_BRACE] + (entries_with_commas(first, 0) + tail))
        by {
        lemma_assoc(entries_with_commas(first, 0), fourth.text() + seq![COMMA], rest);
    }
    lemma_record_opens(v, comma, entries_with_commas(first, 0) + tail);
    assert(fits(Map::empty(), first, 0));
    lemma_entries_then(inside, Map::empty(), first, 0, tail);
    let behind = inside.advance(entries_with_commas(first, 0).len());
    lemma_fields_step_entry(behind, fill(Map::empty(), first, 0), 3, fourth, false, rest);
    reveal(refused);
}

/// The entries before the `k`-th, each with a comma behind it, are the same
/// text in the group as on their own.
proof fn lemma_commas_of_first(entries: Seq<Entry>, k: int, n: int)
    requires
        0 <= n <= k <= entries.len(),
    ensures
        entries_with_commas(entries, n) == entries_with_commas(entries.take(k), n)
            + entries_with_commas(entries, k),
    decreases k - n,
{
    let first = entries.take(k);
    if n < k {
        lemma_commas_of_first(entries, k, n + 1);
        assert(first[n] == entries[n]);
        lemma_assoc(
            entries[n].text() + seq![COMMA],
            entries_with_commas(first, n + 1),
            entries_with_commas(entries, k),
        );
    } else {
        assert(entries_with_commas(first, n) =~= Seq::<u8>::empty());
        assert(Seq::<u8>::empty() + entries_with_commas(entries, k) =~= entries_with_commas(
            entries,
            k,
        ));
    }
}

/// A document that is at least as long as the prelude and does not begin
/// with it is rejected as a schema violation at its first byte.
pub proof fn theorem_wrong_prelude_rejected(bytes: Seq<u8>)
    requires
        bytes.len() >= prelude().len(),
        bytes.take(prelude().len() as int) != prelude(),
    ensures
        document_records(bytes) == Err::<Seq<DistView>, DecodeError>(
            DecodeError::SchemaViolation { position: 0 },
        ),
{
}

} // verus!
