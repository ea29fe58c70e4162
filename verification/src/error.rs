//! The error kinds that patch parsing and application surface.

use vstd::prelude::*;

verus! {

/// Why a patch was rejected.
#[derive(Debug, Clone, Copy, PartialEq, Eq, Structural)]
pub enum PatchError {
    /// Structural fault: bad magic, negative length, truncated stream,
    /// misaligned control data, or a final-state mismatch.
    InvalidData,
    /// A stream ended in the middle of a control tuple or of its data.
    UnexpectedEof,
    /// The declared output size exceeds the supported limit.
    ResourceExhausted,
    /// The compression adapter failed.
    Compression,
}

} // verus!
