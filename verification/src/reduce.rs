//! The one rule of averaging that needs no arithmetic on scores: an average
//! is taken over at least one record.

use vstd::prelude::*;
use crate::error::DecodeError;

verus! {

/// The number by which the sum of the scores of `count` records is divided
/// to give their average: `count` itself, unless there is no record, in
/// which case there is no average.
pub fn divisor(count: usize) -> (outcome: Result<usize, DecodeError>)
    ensures
        outcome == (if count == 0 {
            Err::<usize, DecodeError>(DecodeError::EmptyInputError)
        } else {
            Ok::<usize, DecodeError>(count)
        }),
{
    if count == 0 {
        Err(DecodeError::EmptyInputError)
    } else {
        Ok(count)
    }
}

} // verus!
