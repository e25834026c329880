//! The error taxonomy of the engine.

use vstd::prelude::*;

verus! {

/// What can go wrong while executing actions against the byte image.
///
/// `IoError` is reserved for callers that read or write the file itself;
/// the engine proper never produces it.
#[derive(Clone, Copy, Debug, PartialEq, Eq)]
pub enum JrError {
    IoError,
    CorruptHeader,
    CorruptStructure,
    KeyNotFound,
    TypeMismatch,
    UnsupportedPatchType,
}

} // verus!
