//! Failures reported by address parsing, node decoding and splitting.
use vstd::prelude::*;

verus! {

#[derive(Clone, Copy, Debug, PartialEq, Eq, Structural)]
pub enum Error {
    /// A fixed-size field has the wrong length.
    FormatError,
    /// An encoded node has an unknown type tag or counts that disagree with its length.
    CorruptNode,
    /// An operation was asked of a node it cannot apply to.
    UnexpectedError,
}

} // verus!
