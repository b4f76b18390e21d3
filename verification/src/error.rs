//! The two ways in which an adapter can fail.

use vstd::prelude::*;

verus! {

/// Why archiving or rebuilding a value failed.
#[derive(Clone, Copy, Debug, PartialEq, Eq, Structural)]
pub enum Error {
    /// The sink could not take the bytes it was given.
    SinkFailure,
    /// An archived key, value or word could not be converted.
    ElementFailure,
}

} // verus!
