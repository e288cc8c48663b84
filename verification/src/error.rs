//! Failures the decoders can report.

use vstd::prelude::*;

verus! {

/// A decoder refuses to run when a tensor's length does not match the
/// shape its configuration promises: reading on would be out of
/// bounds.  An empty candidate set is not an error.
#[derive(Clone, Copy, Debug, PartialEq, Eq, Structural)]
pub enum DecodeError {
    ShapeMismatch,
}

} // verus!
