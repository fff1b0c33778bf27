use vstd::prelude::*;

verus! {

/// Failures surfaced by the codec and the ZPAQ reader.
///
/// Every message is a fixed description of the structural defect that was
/// found; no error is recovered internally.
#[derive(Debug, Clone)]
pub enum ZparsError {
    /// Magic mismatch, or a structurally valid but unsupported archive shape.
    InvalidFormat(&'static str),
    /// Truncated or malformed token stream, header, or segment.
    Corrupt(&'static str),
    /// ZPS1 version byte not recognized.
    UnsupportedVersion(u8),
    /// Options failed validation at encode or decode.
    InvalidOption(&'static str),
}

} // verus!

