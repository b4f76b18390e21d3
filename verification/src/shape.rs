//! The shape of an archived value.

use vstd::prelude::*;

verus! {

/// How much room the archived form of a value takes. It depends on the
/// lengths in the value and on nothing else, so that the room can be made
/// before anything is written.
#[derive(Clone, Copy, Debug, PartialEq, Eq)]
pub struct ArchivedShape {
    /// The number of bytes that `serialize_with` appends to the sink.
    pub payload: usize,
    /// The number of bytes that the record takes where it is stored.
    pub record: usize,
}

} // verus!
