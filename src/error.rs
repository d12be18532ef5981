//! The single error of the library.
use vstd::prelude::*;

verus! {

/// The input is not valid UTF-8. No position or kind is given.
#[derive(Debug, Clone, Copy, PartialEq, Eq)]
pub struct Utf8Error;

impl Utf8Error {
    /// A short description of the error, for display.
    pub fn message(&self) -> (r: &'static str)
        ensures
            r@ == "invalid utf-8 sequence"@,
    {
        "invalid utf-8 sequence"
    }
}

} // verus!
