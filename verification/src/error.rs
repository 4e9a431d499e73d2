use vstd::prelude::*;

verus! {

/// The single error of this crate: the bytes seen so far cannot be part of
/// well-formed UTF-8, or the data was finalized while a multi-byte character
/// was still incomplete.
#[derive(Debug, PartialEq, Eq)]
pub struct Utf8Error;

} // verus!
