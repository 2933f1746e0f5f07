use vstd::prelude::*;

verus! {

/// Why a shape-validated operation was refused.
///
/// Input and output I/O failures are surfaced by the unverified layer that
/// performs the I/O; the library itself only ever rejects malformed data.
#[derive(Clone, Copy, Debug, PartialEq, Eq, Structural)]
pub enum HopfieldError {
    /// A length does not match the required dimensions: a render target
    /// whose pixel count differs from the value count, or a pattern longer
    /// than the supported maximum.
    InvalidShape,
    /// A degenerate input: an empty pattern, or an entry outside the
    /// working range.
    PreconditionViolation,
}

} // verus!
