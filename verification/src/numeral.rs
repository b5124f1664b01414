//! Numerals: the decimal literals that stand for coordinates.
//!
//! A numeral is an optional sign, then digits with at most one `.` among
//! them (at least one digit in all), then optionally an exponent: `e` or `E`,
//! an optional sign, and at least one digit. No whitespace is part of a
//! numeral, and the words that name infinities or not-a-number are not
//! numerals.

use vstd::prelude::*;
use vstd::slice::slice_subrange;
use crate::ascii::{DIGIT_NINE, DIGIT_ZERO, DOT, LOWER_E, MINUS, PLUS, UPPER_E};

verus! {

/// The longest numeral that the decoder accepts, in bytes.
pub const MAX_NUMERAL_LEN: usize = 30;

pub open spec fn is_digit(b: u8) -> bool {
    DIGIT_ZERO <= b <= DIGIT_NINE
}

pub open spec fn is_sign(b: u8) -> bool {
    b == PLUS || b == MINUS
}

pub open spec fn is_exponent_mark(b: u8) -> bool {
    b == LOWER_E || b == UPPER_E
}

/// Length of the longest run of digits in `s` that starts at index `i`.
pub open spec fn digits_from(s: Seq<u8>, i: int) -> int
    decreases s.len() - i,
{
    if 0 <= i < s.len() && is_digit(s[i]) {
        1 + digits_from(s, i + 1)
    } else {
        0
    }
}

/// 1 if `s` holds a sign at index `i`, else 0.
pub open spec fn sign_len(s: Seq<u8>, i: int) -> int {
    if 0 <= i < s.len() && is_sign(s[i]) {
        1
    } else {
        0
    }
}

/// Whether `s`, as a whole, is a numeral.
#[verifier::opaque]
pub open spec fn is_numeral(s: Seq<u8>) -> bool {
    let sign = sign_len(s, 0);
    let whole = digits_from(s, sign);
    let point = sign + whole;
    let dotted = point < s.len() && s[point] == DOT;
    let fraction = if dotted { digits_from(s, point + 1) } else { 0 };
    let mantissa_end = if dotted { point + 1 + fraction } else { point };
    let exponent = mantissa_end + 1 + sign_len(s, mantissa_end + 1);
    &&& whole + fraction >= 1
    &&& if mantissa_end < s.len() {
        &&& is_exponent_mark(s[mantissa_end])
        &&& digits_from(s, exponent) >= 1
        &&& exponent + digits_from(s, exponent) == s.len()
    } else {
        mantissa_end == s.len()
    }
}

/// Counts the digits of `text` that follow one another from index `from`.
fn count_digits(text: &[u8], from: usize) -> (count: usize)
    requires
        from <= text@.len(),
    ensures
        count == digits_from(text@, from as int),
        from + count <= text@.len(),
{
    let n = text.len();
    let mut i: usize = from;
    while i < n && DIGIT_ZERO <= text[i] && text[i] <= DIGIT_NINE
        invariant
            n == text@.len(),
            from <= i <= n,
            digits_from(text@, from as int) == (i - from) + digits_from(text@, i as int),
        decreases n - i,
    {
        i = i + 1;
    }
    i - from
}

/// Decides whether `text` is a numeral.
pub fn is_numeral_text(text: &[u8]) -> (ok: bool)
    ensures
        ok == is_numeral(text@),
{
    proof {
        reveal(is_numeral);
    }
    let n = text.len();
    let sign: usize = if n > 0 && (text[0] == PLUS || text[0] == MINUS) { 1 } else { 0 };
    let whole = count_digits(text, sign);
    let point = sign + whole;
    let dotted = point < n && text[point] == DOT;
    let fraction = if dotted { count_digits(text, point + 1) } else { 0 };
    let mantissa_end = if dotted { point + 1 + fraction } else { point };
    if whole + fraction == 0 {
        return false;
    }
    if mantissa_end == n {
        return true;
    }
    if text[mantissa_end] != LOWER_E && text[mantissa_end] != UPPER_E {
        return false;
    }
    let after_mark = mantissa_end + 1;
    let exponent_sign: usize = if after_mark < n && (text[after_mark] == PLUS || text[after_mark]
        == MINUS) { 1 } else { 0 };
    let exponent = after_mark + exponent_sign;
    let digits = count_digits(text, exponent);
    digits >= 1 && exponent + digits == n
}

/// A numeral of at most [`MAX_NUMERAL_LEN`] bytes, held without allocation.
///
/// The bytes behind the text are kept at zero, so that two numerals are
/// equal exactly when their texts are.
#[derive(Clone, Copy, Debug, PartialEq, Eq)]
pub struct Numeral {
    bytes: [u8; 30],
    len: usize,
}

impl View for Numeral {
    type V = Seq<u8>;

    /// The text of the numeral.
    closed spec fn view(&self) -> Seq<u8> {
        self.bytes@.take(self.len as int)
    }
}

impl Numeral {
    #[verifier::type_invariant]
    spec fn well_formed(self) -> bool {
        &&& self.len <= MAX_NUMERAL_LEN
        &&& is_numeral(self.bytes@.take(self.len as int))
        &&& forall|i: int| self.len <= i < MAX_NUMERAL_LEN ==> self.bytes@[i] == 0
    }

    /// The numeral with the text `text`, if `text` is a numeral of at most
    /// [`MAX_NUMERAL_LEN`] bytes.
    pub fn parse(text: &[u8]) -> (numeral: Option<Numeral>)
        ensures
            numeral is Some <==> text@.len() <= MAX_NUMERAL_LEN && is_numeral(text@),
            numeral matches Some(n) ==> n@ == text@,
    {
        let len = text.len();
        if len > MAX_NUMERAL_LEN || !is_numeral_text(text) {
            return None;
        }
        let mut bytes = [0u8;30];
        let mut i: usize = 0;
        while i < len
            invariant
                len == text@.len(),
                len <= MAX_NUMERAL_LEN,
                i <= len,
                bytes@.take(i as int) == text@.take(i as int),
                forall|j: int| i <= j < MAX_NUMERAL_LEN ==> bytes@[j] == 0,
            decreases len - i,
        {
            bytes[i] = text[i];
            i = i + 1;
        }
        assert(text@.take(len as int) =~= text@);
        Some(Numeral { bytes, len })
    }

    /// The text of the numeral.
    pub fn as_bytes(&self) -> (text: &[u8])
        ensures
            text@ == self@,
            is_numeral(self@),
            self@.len() <= MAX_NUMERAL_LEN,
    {
        proof {
            use_type_invariant(self);
        }
        slice_subrange(self.bytes.as_slice(), 0, self.len)
    }

    /// Length of the numeral's text in bytes.
    pub fn len(&self) -> (len: usize)
        ensures
            len == self@.len(),
            1 <= len <= MAX_NUMERAL_LEN,
    {
        proof {
            use_type_invariant(self);
            lemma_numeral_alphabet(self@);
        }
        self.len
    }
}

/// Every byte of a run of digits is a digit.
proof fn lemma_digits_from_are_digits(s: Seq<u8>, i: int)
    requires
        0 <= i,
    ensures
        0 <= digits_from(s, i),
        i + digits_from(s, i) <= s.len() || digits_from(s, i) == 0,
        forall|j: int| i <= j < i + digits_from(s, i) ==> is_digit(#[trigger] s[j]),
    decreases s.len() - i,
{
    if i < s.len() && is_digit(s[i]) {
        lemma_digits_from_are_digits(s, i + 1);
    }
}

/// A numeral is made of digits, signs, dots and exponent marks only.
pub proof fn lemma_numeral_alphabet(s: Seq<u8>)
    requires
        is_numeral(s),
    ensures
        s.len() >= 1,
        forall|j: int|
            0 <= j < s.len() ==> {
                let b = #[trigger] s[j];
                is_digit(b) || is_sign(b) || b == DOT || is_exponent_mark(b)
            },
{
    reveal(is_numeral);
    let sign = sign_len(s, 0);
    let whole = digits_from(s, sign);
    let point = sign + whole;
    let dotted = point < s.len() && s[point] == DOT;
    let fraction = if dotted { digits_from(s, point + 1) } else { 0 };
    let mantissa_end = if dotted { point + 1 + fraction } else { point };
    let exponent = mantissa_end + 1 + sign_len(s, mantissa_end + 1);
    lemma_digits_from_are_digits(s, sign);
    if dotted {
        lemma_digits_from_are_digits(s, point + 1);
    }
    if mantissa_end < s.len() {
        lemma_digits_from_are_digits(s, exponent);
    }
}

/// A numeral taken apart. The parts that a numeral lacks are empty.
pub struct Shape {
    /// The sign of the numeral.
    pub sign: Seq<u8>,
    /// The digits before the dot.
    pub whole: Seq<u8>,
    /// Whether the numeral has a dot.
    pub dotted: bool,
    /// The digits behind the dot.
    pub fraction: Seq<u8>,
    /// Whether the numeral has an exponent.
    pub scaled: bool,
    /// The byte that begins the exponent.
    pub mark: u8,
    /// The sign of the exponent.
    pub exponent_sign: Seq<u8>,
    /// The digits of the exponent.
    pub exponent: Seq<u8>,
}

/// Every byte of `s` is a digit.
pub open spec fn all_digits(s: Seq<u8>) -> bool {
    forall|i: int| 0 <= i < s.len() ==> is_digit(#[trigger] s[i])
}

/// `s` is a sign or nothing.
pub open spec fn optional_sign(s: Seq<u8>) -> bool {
    s.len() == 0 || (s.len() == 1 && is_sign(s[0]))
}

impl Shape {
    /// The parts are what the parts of a numeral may be: an optional sign;
    /// digits before or behind an optional dot, at least one in all; and,
    /// if there is an exponent, its mark, an optional sign and at least one
    /// digit.
    pub open spec fn well_formed(self) -> bool {
        &&& optional_sign(self.sign)
        &&& all_digits(self.whole)
        &&& all_digits(self.fraction)
        &&& (self.dotted || self.fraction.len() == 0)
        &&& self.whole.len() + self.fraction.len() >= 1
        &&& self.scaled ==> {
            &&& is_exponent_mark(self.mark)
            &&& optional_sign(self.exponent_sign)
            &&& all_digits(self.exponent)
            &&& self.exponent.len() >= 1
        }
    }

    /// The mantissa as written: the sign, the digits and the dot.
    pub open spec fn mantissa(self) -> Seq<u8> {
        self.sign + self.whole + if self.dotted {
            seq![DOT] + self.fraction
        } else {
            Seq::empty()
        }
    }

    /// The numeral as written: the mantissa, and the exponent if there is one.
    pub open spec fn text(self) -> Seq<u8> {
        self.mantissa() + if self.scaled {
            seq![self.mark] + self.exponent_sign + self.exponent
        } else {
            Seq::empty()
        }
    }
}

/// A run of `n` digits from index `i` on, with no digit behind it, is the
/// longest run of digits that starts at `i`.
proof fn lemma_digits_run(s: Seq<u8>, i: int, n: int)
    requires
        0 <= i,
        0 <= n,
        i + n <= s.len(),
        forall|j: int| i <= j < i + n ==> is_digit(#[trigger] s[j]),
        i + n == s.len() || !is_digit(s[i + n]),
    ensures
        digits_from(s, i) == n,
    decreases n,
{
    if n > 0 {
        lemma_digits_run(s, i + 1, n - 1);
    }
}

/// The text of a well-formed shape is a numeral.
pub proof fn lemma_shape_is_numeral(shape: Shape)
    requires
        shape.well_formed(),
    ensures
        is_numeral(shape.text()),
{
    reveal(is_numeral);
    let t = shape.text();
    let a = shape.sign.len() as int;
    let w = shape.whole.len() as int;
    let f = shape.fraction.len() as int;
    let point = a + w;
    let m = if shape.dotted { point + 1 + f } else { point };
    assert forall|j: int| 0 <= j < a implies t[j] == shape.sign[j] by {}
    assert forall|j: int| a <= j < point implies is_digit(#[trigger] t[j]) by {}
    if shape.dotted {
        assert(t[point] == DOT);
        assert forall|j: int| point + 1 <= j < m implies is_digit(#[trigger] t[j]) by {}
    }
    if shape.scaled {
        let e = shape.exponent_sign.len() as int;
        let x = shape.exponent.len() as int;
        assert forall|j: int| m + 1 + e <= j < t.len() implies is_digit(#[trigger] t[j]) by {}
        lemma_digits_run(t, m + 1 + e, x);
    }
    lemma_digits_run(t, a, w);
    if shape.dotted {
        lemma_digits_run(t, point + 1, f);
    }
}

/// A numeral has a well-formed shape: the result is that shape.
pub proof fn lemma_numeral_has_shape(s: Seq<u8>) -> (shape: Shape)
    requires
        is_numeral(s),
    ensures
        shape.well_formed(),
        shape.text() == s,
{
    reveal(is_numeral);
    let sign = sign_len(s, 0);
    let whole = digits_from(s, sign);
    let point = sign + whole;
    let dotted = point < s.len() && s[point] == DOT;
    let fraction = if dotted { digits_from(s, point + 1) } else { 0 };
    let mantissa_end = if dotted { point + 1 + fraction } else { point };
    let scaled = mantissa_end < s.len();
    let exponent = mantissa_end + 1 + sign_len(s, mantissa_end + 1);
    lemma_digits_from_are_digits(s, sign);
    if dotted {
        lemma_digits_from_are_digits(s, point + 1);
    }
    if scaled {
        lemma_digits_from_are_digits(s, exponent);
    }
    let shape = Shape {
        sign: s.subrange(0, sign),
        whole: s.subrange(sign, point),
        dotted,
        fraction: if dotted { s.subrange(point + 1, mantissa_end) } else { Seq::empty() },
        scaled,
        mark: if scaled { s[mantissa_end] } else { LOWER_E },
        exponent_sign: if scaled { s.subrange(mantissa_end + 1, exponent) } else { Seq::empty() },
        exponent: if scaled { s.subrange(exponent, s.len() as int) } else { Seq::empty() },
    };
    shape
}

/// The numerals are the texts of the well-formed shapes.
pub proof fn theorem_numeral_shape(s: Seq<u8>)
    ensures
        is_numeral(s) <==> exists|shape: Shape| shape.well_formed() && #[trigger] shape.text() == s,
{
    if is_numeral(s) {
        let shape = lemma_numeral_has_shape(s);
        assert(shape.well_formed() && shape.text() == s);
    }
    if exists|shape: Shape| shape.well_formed() && #[trigger] shape.text() == s {
        let shape = choose|shape: Shape| shape.well_formed() && #[trigger] shape.text() == s;
        lemma_shape_is_numeral(shape);
    }
}

} // verus!
