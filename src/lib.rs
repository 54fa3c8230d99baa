//! Turns the text output of a Go test run into a sequence of typed records: failed
//! tests and packages, panics, and the frames of goroutine stack traces. Each
//! record points into the scanned buffer by byte positions instead of copying.

use vstd::prelude::*;

pub mod bytes;
pub mod parse;
pub mod scan;

verus! {

/// Why a log could not be filtered.
#[derive(Clone, Copy, Debug, PartialEq, Eq, Structural)]
pub struct FilterError;

/// Filters a test log; for now every log passes through unchanged.
pub fn filter(i: &[u8]) -> (r: Result<&[u8], FilterError>)
    ensures
        r matches Ok(o) && o@ == i@,
{
    Ok(i)
}

} // verus!
